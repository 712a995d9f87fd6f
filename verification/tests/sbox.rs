use pykrete_wb::sbox::{PrecomputedSBox, SBox};
use pykrete_wb::X;

#[test]
fn standard_sbox_is_standard() {
    let sbox = PrecomputedSBox::aes_standard();

    assert_eq!(sbox.sub_byte(X(0x00)), X(0x63));
    assert_eq!(sbox.sub_byte(X(0x01)), X(0x7c));
}

#[test]
fn inversed_sbox_undoes_both_ways() {
    let sbox = PrecomputedSBox::aes_standard();
    let inv = PrecomputedSBox::inversed(&sbox);
    for x in 0..=255u8 {
        assert_eq!(inv.sub_byte(sbox.sub_byte(X(x))), X(x));
        assert_eq!(sbox.sub_byte(inv.sub_byte(X(x))), X(x));
    }
    assert_eq!(inv.sub_byte(X(0x63)), X(0x00));
}
