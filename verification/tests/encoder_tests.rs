use typefix::base::encoder::{decode_accents, encode_accents, strip_accents};

#[test]
fn test_encoding_decoding() {
    let original = "investigación";
    let encoded = encode_accents(original);
    assert_eq!(encoded, "investigaciOn");
    let decoded = decode_accents(&encoded);
    assert_eq!(decoded, original);
}

#[test]
fn encode_every_accented_letter() {
    assert_eq!(encode_accents("áéíóúñüãõçâêôà"), "AEIOUNWBCDFGJL");
    assert_eq!(decode_accents("AEIOUNWBCDFGJL"), "áéíóúñüãõçâêôà");
}

#[test]
fn strip_removes_accents() {
    assert_eq!(strip_accents("canción pingüino"), "cancion pinguino");
    assert_eq!(strip_accents(&strip_accents("ñandú")), strip_accents("ñandú"));
}

#[test]
fn round_trip_on_lowercase_text() {
    let text = "el niño comió paella en la playa";
    assert_eq!(decode_accents(&encode_accents(text)), text);
    assert_eq!(encode_accents(text).chars().count(), text.chars().count());
}
