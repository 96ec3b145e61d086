//! Decides which media entries of the headset are screenshots to forward.

use vstd::prelude::*;
use vstd::utf8::is_ascii_chars;

use crate::packets::extension_is_allowed;
use crate::packets::is_allowed_extension;
use crate::text::after_last_dot;
use crate::text::ascii_lowercase;
use crate::text::contains_text;
use crate::text::lemma_after_last_dot;
use crate::text::lemma_lowercase_ignores_ascii_case;
use crate::text::lowercase;
use crate::text::occurs_in;
use crate::text::split_after_last_dot;
use crate::text::the_last_dot_has_none_behind_it;
use crate::text::to_lowercase;

verus! {

/// Image types that are forwarded; `mime_type` is in lower case here.
pub open spec fn is_image_type(mime_type: Seq<char>) -> bool {
    mime_type == "image/jpeg"@ || mime_type == "image/png"@
}

/// The extension to forward a capture under, given the extension of its name and its type, both
/// in lower case.
pub open spec fn forwarded(extension: Seq<char>, mime_type: Seq<char>) -> Option<Seq<char>> {
    if is_allowed_extension(extension) && is_image_type(mime_type) {
        Some(extension)
    } else {
        None
    }
}

/// The extension to forward a media entry under, if it is to be forwarded.
pub open spec fn forwarded_extension(display_name: Seq<char>, mime_type: Seq<char>) -> Option<
    Seq<char>,
> {
    match after_last_dot(display_name) {
        Some(extension) => forwarded(lowercase(extension), lowercase(mime_type)),
        None => None,
    }
}

/// Decides whether a media entry is a screenshot to forward, returning its extension.
///
/// Deliberately vendor-agnostic. Pico embeds the foreground app package in the file name, but
/// other headsets name their files differently and a strict package match there would silently
/// forward nothing. Since the entries are already restricted to those created while streaming,
/// mime type and extension are enough to decide; the package match is kept as a diagnostic in
/// [`matches_package`].
pub fn screenshot_extension(display_name: &str, mime_type: &str) -> (extension: Option<String>)
    ensures
        match extension {
            Some(text) => forwarded_extension(display_name@, mime_type@) == Some(text@),
            None => forwarded_extension(display_name@, mime_type@) is None,
        },
{
    match split_after_last_dot(display_name) {
        Some(extension) => {
            let lower_extension = to_lowercase(extension);
            let lower_type = to_lowercase(mime_type);
            forward_as(lower_extension, lower_type)
        },
        None => None,
    }
}

/// Decides on an extension and a mime type that are in lower case already.
pub fn forward_as(extension: String, mime_type: String) -> (forward: Option<String>)
    ensures
        match forward {
            Some(text) => forwarded(extension@, mime_type@) == Some(text@),
            None => forwarded(extension@, mime_type@) is None,
        },
{
    if !extension_is_allowed(&extension) {
        return None;
    }
    if mime_type != "image/jpeg".to_owned() && mime_type != "image/png".to_owned() {
        return None;
    }
    Some(extension)
}

/// True when the file name carries our own package id, as Pico writes it.
pub fn matches_package(display_name: &str, package_name: &str) -> (matches: bool)
    ensures
        matches == (package_name@.len() > 0 && occurs_in(display_name@, package_name@)),
{
    !package_name.is_empty() && contains_text(display_name, package_name)
}

/// The decision is vendor-agnostic: nothing that stands before the last dot of a name matters, the
/// package id included. Names with the same text after the last dot are decided alike.
pub proof fn only_the_extension_of_a_name_decides(
    a: Seq<char>,
    b: Seq<char>,
    extension: Seq<char>,
    mime_type: Seq<char>,
)
    requires
        !extension.contains('.'),
    ensures
        forwarded_extension(a + seq!['.'] + extension, mime_type) == forwarded(
            lowercase(extension),
            lowercase(mime_type),
        ),
        forwarded_extension(a + seq!['.'] + extension, mime_type) == forwarded_extension(
            b + seq!['.'] + extension,
            mime_type,
        ),
        after_last_dot(a) == after_last_dot(b) ==> forwarded_extension(a, mime_type)
            == forwarded_extension(b, mime_type),
{
    lemma_after_last_dot_of(a, extension);
    lemma_after_last_dot_of(b, extension);
}

proof fn lemma_after_last_dot_of(stem: Seq<char>, extension: Seq<char>)
    requires
        !extension.contains('.'),
    ensures
        after_last_dot(stem + seq!['.'] + extension) == Some(extension),
{
    let name = stem + seq!['.'] + extension;
    let at = stem.len() as int;
    assert forall|j: int| at < j < name.len() implies name[j] != '.' by {
        assert(extension[j - at - 1] == name[j]);
    }
    lemma_after_last_dot(name, at);
    assert(name.skip(at + 1) =~= extension);
}

/// The case of ASCII letters makes no difference, neither in the extension nor in the mime type,
/// whatever other characters stand around them.
pub proof fn case_makes_no_difference(
    a: Seq<char>,
    b: Seq<char>,
    extension: Seq<char>,
    same_extension: Seq<char>,
    mime_type: Seq<char>,
    same_mime_type: Seq<char>,
)
    requires
        !extension.contains('.'),
        !same_extension.contains('.'),
        ascii_lowercase(extension) == ascii_lowercase(same_extension),
        ascii_lowercase(mime_type) == ascii_lowercase(same_mime_type),
    ensures
        forwarded_extension(a + seq!['.'] + extension, mime_type) == forwarded_extension(
            b + seq!['.'] + same_extension,
            same_mime_type,
        ),
{
    lemma_after_last_dot_of(a, extension);
    lemma_after_last_dot_of(b, same_extension);
    lemma_lowercase_ignores_ascii_case(extension, same_extension);
    lemma_lowercase_ignores_ascii_case(mime_type, same_mime_type);
}

/// Whether a text is `lower` with some of its letters, perhaps none, in upper case.
pub open spec fn is_in_some_case(text: Seq<char>, lower: Seq<char>) -> bool {
    &&& text.len() == lower.len()
    &&& forall|i: int|
        0 <= i < text.len() ==> #[trigger] text[i] == lower[i] || (65 <= text[i] as u32 <= 90
            && text[i] as u32 + 32 == lower[i] as u32)
}

proof fn lemma_is_in_some_case(text: Seq<char>, lower: Seq<char>)
    requires
        is_ascii_chars(lower),
        forall|i: int| 0 <= i < lower.len() ==> !('A' <= #[trigger] lower[i] <= 'Z'),
    ensures
        is_in_some_case(text, lower) <==> is_ascii_chars(text) && lowercase(text) == lower,
{
    if is_in_some_case(text, lower) {
        assert forall|i: int| 0 <= i < text.len() implies (#[trigger] text[i] as u32) < 128 by {
            assert((lower[i] as u32) < 128);
        }
        assert forall|i: int| 0 <= i < text.len() implies #[trigger] ascii_lowercase(text)[i]
            == lower[i] by {
            assert(!('A' <= lower[i] <= 'Z'));
            assert(ascii_lowercase(text)[i] as u32 == lower[i] as u32);
        }
        assert(ascii_lowercase(text) =~= lower);
    }
    if is_ascii_chars(text) && lowercase(text) == lower {
        assert forall|i: int| 0 <= i < text.len() implies #[trigger] text[i] == lower[i] || (65
            <= text[i] as u32 <= 90 && text[i] as u32 + 32 == lower[i] as u32) by {
            assert(ascii_lowercase(text)[i] == lower[i]);
        }
    }
}

/// The texts that a capture's extension and type come down to.
proof fn lemma_texts()
    ensures
        "jpeg"@ == seq!['j', 'p', 'e', 'g'],
        "jpg"@ == seq!['j', 'p', 'g'],
        "png"@ == seq!['p', 'n', 'g'],
        "image/jpeg"@ == seq!['i', 'm', 'a', 'g', 'e', '/', 'j', 'p', 'e', 'g'],
        "image/png"@ == seq!['i', 'm', 'a', 'g', 'e', '/', 'p', 'n', 'g'],
{
    reveal_strlit("jpeg");
    reveal_strlit("jpg");
    reveal_strlit("png");
    reveal_strlit("image/jpeg");
    reveal_strlit("image/png");
    assert("jpeg"@ =~= seq!['j', 'p', 'e', 'g']);
    assert("jpg"@ =~= seq!['j', 'p', 'g']);
    assert("png"@ =~= seq!['p', 'n', 'g']);
    assert("image/jpeg"@ =~= seq!['i', 'm', 'a', 'g', 'e', '/', 'j', 'p', 'e', 'g']);
    assert("image/png"@ =~= seq!['i', 'm', 'a', 'g', 'e', '/', 'p', 'n', 'g']);
}

/// A name is forwarded under an extension exactly if that is what follows its last dot, in lower
/// case, it is one of the three that are supported, and the type in lower case is one of the two.
/// A name without a dot is never forwarded.
pub proof fn images_are_forwarded_under_their_extension(
    stem: Seq<char>,
    extension: Seq<char>,
    mime_type: Seq<char>,
    forward: Seq<char>,
)
    requires
        forall|i: int| 0 <= i < extension.len() ==> #[trigger] extension[i] != '.',
    ensures
        forwarded_extension(stem + seq!['.'] + extension, mime_type) == Some(forward) <==> {
            &&& forward == lowercase(extension)
            &&& {
                ||| forward == seq!['j', 'p', 'e', 'g']
                ||| forward == seq!['j', 'p', 'g']
                ||| forward == seq!['p', 'n', 'g']
            }
            &&& {
                ||| lowercase(mime_type) == seq!['i', 'm', 'a', 'g', 'e', '/', 'j', 'p', 'e', 'g']
                ||| lowercase(mime_type) == seq!['i', 'm', 'a', 'g', 'e', '/', 'p', 'n', 'g']
            }
        },
        forwarded_extension(extension, mime_type) is None,
        forwarded(extension, mime_type) == Some(forward) <==> {
            &&& forward == extension
            &&& {
                ||| forward == seq!['j', 'p', 'e', 'g']
                ||| forward == seq!['j', 'p', 'g']
                ||| forward == seq!['p', 'n', 'g']
            }
            &&& {
                ||| mime_type == seq!['i', 'm', 'a', 'g', 'e', '/', 'j', 'p', 'e', 'g']
                ||| mime_type == seq!['i', 'm', 'a', 'g', 'e', '/', 'p', 'n', 'g']
            }
        },
{
    the_last_dot_has_none_behind_it(stem, extension);
    lemma_texts();
}

/// Every name that ends in a dot and one of the three extensions in any case is forwarded if its
/// type is one of the two in any case, whatever stands before the dot and however long it is. Of
/// ASCII extensions and types no other is.
pub proof fn any_case_of_an_image_is_forwarded(
    stem: Seq<char>,
    extension: Seq<char>,
    mime_type: Seq<char>,
)
    requires
        forall|i: int| 0 <= i < extension.len() ==> #[trigger] extension[i] != '.',
    ensures
        ({
            let image = {
                ||| is_in_some_case(
                    mime_type,
                    seq!['i', 'm', 'a', 'g', 'e', '/', 'j', 'p', 'e', 'g'],
                )
                ||| is_in_some_case(mime_type, seq!['i', 'm', 'a', 'g', 'e', '/', 'p', 'n', 'g'])
            };
            let forward = forwarded_extension(stem + seq!['.'] + extension, mime_type);
            &&& is_in_some_case(extension, seq!['j', 'p', 'e', 'g']) && image ==> forward == Some(
                seq!['j', 'p', 'e', 'g'],
            )
            &&& is_in_some_case(extension, seq!['j', 'p', 'g']) && image ==> forward == Some(
                seq!['j', 'p', 'g'],
            )
            &&& is_in_some_case(extension, seq!['p', 'n', 'g']) && image ==> forward == Some(
                seq!['p', 'n', 'g'],
            )
            &&& is_ascii_chars(extension) && !is_in_some_case(extension, seq!['j', 'p', 'e', 'g'])
                && !is_in_some_case(extension, seq!['j', 'p', 'g']) && !is_in_some_case(
                extension,
                seq!['p', 'n', 'g'],
            ) ==> forward is None
            &&& is_ascii_chars(mime_type) && !image ==> forward is None
        }),
{
    let jpeg = seq!['j', 'p', 'e', 'g'];
    let jpg = seq!['j', 'p', 'g'];
    let png = seq!['p', 'n', 'g'];
    let image_jpeg = seq!['i', 'm', 'a', 'g', 'e', '/', 'j', 'p', 'e', 'g'];
    let image_png = seq!['i', 'm', 'a', 'g', 'e', '/', 'p', 'n', 'g'];
    lemma_is_in_some_case(extension, jpeg);
    lemma_is_in_some_case(extension, jpg);
    lemma_is_in_some_case(extension, png);
    lemma_is_in_some_case(mime_type, image_jpeg);
    lemma_is_in_some_case(mime_type, image_png);
    images_are_forwarded_under_their_extension(stem, extension, mime_type, jpeg);
    images_are_forwarded_under_their_extension(stem, extension, mime_type, jpg);
    images_are_forwarded_under_their_extension(stem, extension, mime_type, png);
    match forwarded_extension(stem + seq!['.'] + extension, mime_type) {
        Some(forward) => {
            images_are_forwarded_under_their_extension(stem, extension, mime_type, forward);
        },
        None => {},
    }
}

} // verus!
