//! File names: extension, stem, and the kinds of file a dataset holds.
use vstd::prelude::*;

verus! {

/// Position of the last `.` in `s`, or -1 where there is none.
pub open spec fn last_dot(s: Seq<char>) -> int
    decreases s.len(),
{
    if s.len() == 0 {
        -1
    } else if s.last() == '.' {
        s.len() - 1
    } else {
        last_dot(s.drop_last())
    }
}

/// A name has an extension when its last `.` is not its first character.
pub open spec fn has_extension(s: Seq<char>) -> bool {
    last_dot(s) > 0
}

/// What follows the last `.`.
pub open spec fn extension_of(s: Seq<char>) -> Seq<char> {
    s.subrange(last_dot(s) + 1, s.len() as int)
}

/// What precedes the last `.`.
pub open spec fn stem_of(s: Seq<char>) -> Seq<char> {
    s.subrange(0, last_dot(s))
}

/// `c` is the lower-case ASCII letter `l`, in either case.
pub open spec fn char_eq_ignore_case(c: char, l: char) -> bool {
    c == l || ('a' <= l && l <= 'z' && (c as u32) + 32 == (l as u32))
}

/// `s` equals the lower-case ASCII word `w` when ASCII case is ignored.
pub open spec fn eq_ignore_case(s: Seq<char>, w: Seq<char>) -> bool {
    s.len() == w.len() && forall|i: int| 0 <= i < s.len() ==> char_eq_ignore_case(#[trigger] s[i], w[i])
}

/// `jpg`, `jpeg` or `png`, in any case.
pub open spec fn is_image_extension(e: Seq<char>) -> bool {
    eq_ignore_case(e, seq!['j', 'p', 'g']) || eq_ignore_case(e, seq!['j', 'p', 'e', 'g'])
        || eq_ignore_case(e, seq!['p', 'n', 'g'])
}

pub open spec fn txt() -> Seq<char> {
    seq!['t', 'x', 't']
}

/// An image file: its extension is an image extension.
pub open spec fn is_image_name(s: Seq<char>) -> bool {
    has_extension(s) && is_image_extension(extension_of(s))
}

/// An annotation file as the planners see it: its extension is exactly `txt`.
pub open spec fn is_label_name(s: Seq<char>) -> bool {
    has_extension(s) && extension_of(s) == txt()
}

/// The annotation file that belongs to an image: its stem (the whole name where it has no
/// extension), then `.txt`.
pub open spec fn label_key_of(s: Seq<char>) -> Seq<char> {
    (if has_extension(s) {
        stem_of(s)
    } else {
        s
    }) + seq!['.'] + txt()
}

/// Where the layout step puts a loose file of a split folder.
#[derive(PartialEq, Eq, Structural, Clone, Copy, Debug)]
pub enum FileKind {
    Image,
    Label,
    Other,
}

pub open spec fn kind_of(s: Seq<char>) -> FileKind {
    if is_image_name(s) {
        FileKind::Image
    } else if has_extension(s) && eq_ignore_case(extension_of(s), txt()) {
        FileKind::Label
    } else {
        FileKind::Other
    }
}

/// The last dot is a dot, and none follows it.
pub proof fn lemma_last_dot(s: Seq<char>)
    ensures
        -1 <= last_dot(s) < s.len(),
        last_dot(s) >= 0 ==> s[last_dot(s)] == '.',
        forall|k: int| last_dot(s) < k < s.len() ==> s[k] != '.',
    decreases s.len(),
{
    if s.len() > 0 && s.last() != '.' {
        lemma_last_dot(s.drop_last());
        assert forall|k: int| last_dot(s) < k < s.len() implies s[k] != '.' by {
            if k < s.len() - 1 {
                assert(s.drop_last()[k] == s[k]);
            }
        }
    }
}

/// Position of the last `.` of `s`, where there is one.
pub fn find_last_dot(s: &str) -> (r: Option<usize>)
    ensures
        r is None <==> last_dot(s@) == -1,
        r matches Some(p) ==> p == last_dot(s@) && p < s@.len(),
{
    let n = s.unicode_len();
    let mut i: usize = n;
    assert(s@.take(n as int) =~= s@);
    while i > 0
        invariant
            i <= n == s@.len(),
            last_dot(s@) == last_dot(s@.take(i as int)),
        decreases i,
    {
        assert(s@.take(i as int).drop_last() =~= s@.take(i - 1));
        if s.get_char(i - 1) == '.' {
            return Some(i - 1);
        }
        i = i - 1;
    }
    None
}

/// The extension of `s`, where it has one.
pub fn extension(s: &str) -> (r: Option<&str>)
    ensures
        r is Some <==> has_extension(s@),
        r matches Some(e) ==> e@ == extension_of(s@),
{
    proof {
        lemma_last_dot(s@);
    }
    let n = s.unicode_len();
    match find_last_dot(s) {
        Some(p) if p > 0 => Some(s.substring_char(p + 1, n)),
        _ => None,
    }
}

/// Compares `s` with a lower-case ASCII word, ignoring ASCII case.
fn eq_ignore_ascii_case(s: &str, w: &str) -> (r: bool)
    ensures
        r == eq_ignore_case(s@, w@),
{
    let n = s.unicode_len();
    if n != w.unicode_len() {
        return false;
    }
    let mut i: usize = 0;
    while i < n
        invariant
            n == s@.len() == w@.len(),
            i <= n,
            forall|k: int| 0 <= k < i ==> char_eq_ignore_case(#[trigger] s@[k], w@[k]),
        decreases n - i,
    {
        let c = s.get_char(i);
        let l = w.get_char(i);
        if !(c == l || ('a' <= l && l <= 'z' && (c as u32) + 32 == (l as u32))) {
            return false;
        }
        i = i + 1;
    }
    true
}

/// `e` is `jpg`, `jpeg` or `png`, in any case.
pub fn is_image_ext(e: &str) -> (r: bool)
    ensures
        r == is_image_extension(e@),
{
    proof {
        reveal_strlit("jpg");
        reveal_strlit("jpeg");
        reveal_strlit("png");
        assert("jpg"@ =~= seq!['j', 'p', 'g']);
        assert("jpeg"@ =~= seq!['j', 'p', 'e', 'g']);
        assert("png"@ =~= seq!['p', 'n', 'g']);
    }
    eq_ignore_ascii_case(e, "jpg") || eq_ignore_ascii_case(e, "jpeg") || eq_ignore_ascii_case(
        e,
        "png",
    )
}

/// The name is that of an image file.
pub fn is_image_file(s: &str) -> (r: bool)
    ensures
        r == is_image_name(s@),
{
    match extension(s) {
        Some(e) => is_image_ext(e),
        None => false,
    }
}

/// The name is that of an annotation file: its extension is exactly `txt`.
pub fn is_label_file(s: &str) -> (r: bool)
    ensures
        r == is_label_name(s@),
{
    proof {
        reveal_strlit("txt");
        assert("txt"@ =~= txt());
    }
    match extension(s) {
        Some(e) => {
            let t = String::from_str("txt");
            let e2 = String::from_str(e);
            e2 == t
        },
        None => false,
    }
}

/// Classifies a loose file of a split folder by its extension, ignoring ASCII case:
/// images, annotations (`txt`), and the rest, which stays where it is.
pub fn classify_file(s: &str) -> (r: FileKind)
    ensures
        r == kind_of(s@),
{
    proof {
        reveal_strlit("txt");
        assert("txt"@ =~= txt());
    }
    match extension(s) {
        Some(e) => {
            if is_image_ext(e) {
                FileKind::Image
            } else if eq_ignore_ascii_case(e, "txt") {
                FileKind::Label
            } else {
                FileKind::Other
            }
        },
        None => FileKind::Other,
    }
}

/// The annotation file name that belongs to an image file name: its stem (the whole name where
/// it has no extension), then `.txt`.
pub fn label_key(s: &str) -> (r: String)
    ensures
        r@ == label_key_of(s@),
{
    proof {
        lemma_last_dot(s@);
        reveal_strlit(".txt");
        assert(".txt"@ =~= seq!['.'] + txt());
    }
    let mut r = match find_last_dot(s) {
        Some(p) if p > 0 => String::from_str(s.substring_char(0, p)),
        _ => String::from_str(s),
    };
    r.append(".txt");
    assert(r@ =~= label_key_of(s@));
    r
}

} // verus!
