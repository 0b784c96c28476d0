//! Text, character by character.

use disktree::text::trim;

#[test]
fn white_space_is_what_has_the_property() {
    let white = |code: u32| {
        matches!(
            code,
            0x9..=0xd
                | 0x20
                | 0x85
                | 0xa0
                | 0x1680
                | 0x2000..=0x200a
                | 0x2028
                | 0x2029
                | 0x202f
                | 0x205f
                | 0x3000
        )
    };
    for code in 0..=0x10_ffff {
        if let Some(character) = char::from_u32(code) {
            let trimmed = trim(&character.to_string());
            assert_eq!(trimmed.is_empty(), white(code), "{code:x}");
        }
    }
}

#[test]
fn only_the_ends_are_trimmed() {
    let trimmed: String = trim("\t\u{3000} a  b \n").into_iter().collect();
    assert_eq!(trimmed, "a  b");
}
