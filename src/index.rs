//! Sequential indices and the new names built from them: `img_0001.jpg`, `img_0001.txt`.
use vstd::prelude::*;
use crate::name::txt;

verus! {

pub open spec fn digit(d: nat) -> char {
    if d == 0 { '0' }
    else if d == 1 { '1' }
    else if d == 2 { '2' }
    else if d == 3 { '3' }
    else if d == 4 { '4' }
    else if d == 5 { '5' }
    else if d == 6 { '6' }
    else if d == 7 { '7' }
    else if d == 8 { '8' }
    else { '9' }
}

pub open spec fn digit_value(c: char) -> nat {
    if c == '1' { 1 }
    else if c == '2' { 2 }
    else if c == '3' { 3 }
    else if c == '4' { 4 }
    else if c == '5' { 5 }
    else if c == '6' { 6 }
    else if c == '7' { 7 }
    else if c == '8' { 8 }
    else if c == '9' { 9 }
    else { 0 }
}

pub open spec fn is_digit(c: char) -> bool {
    '0' <= c && c <= '9'
}

/// The decimal digits of `n`, without leading zeros.
pub open spec fn decimal(n: nat) -> Seq<char>
    decreases n,
{
    if n < 10 {
        seq![digit(n)]
    } else {
        decimal(n / 10).push(digit(n % 10))
    }
}

/// `n` in decimal, padded with zeros on the left to at least four digits.
pub open spec fn index_text(n: nat) -> Seq<char> {
    let d = decimal(n);
    if d.len() < 4 {
        Seq::new((4 - d.len()) as nat, |i: int| '0') + d
    } else {
        d
    }
}

pub open spec fn img_prefix() -> Seq<char> {
    seq!['i', 'm', 'g', '_']
}

/// The new name of the image with index `n` and extension `ext`.
pub open spec fn image_target(n: nat, ext: Seq<char>) -> Seq<char> {
    img_prefix() + index_text(n) + seq!['.'] + ext
}

/// The new name of the annotation with index `n`.
pub open spec fn label_target(n: nat) -> Seq<char> {
    image_target(n, txt())
}

/// The stem that an index gives to both files of a pair.
pub open spec fn target_stem(n: nat) -> Seq<char> {
    img_prefix() + index_text(n)
}

/// The value of a string of decimal digits.
pub open spec fn digits_value(s: Seq<char>) -> nat
    decreases s.len(),
{
    if s.len() == 0 {
        0
    } else {
        digits_value(s.drop_last()) * 10 + digit_value(s.last())
    }
}

proof fn lemma_decimal(n: nat)
    ensures
        digits_value(decimal(n)) == n,
        decimal(n).len() >= 1,
        forall|i: int| 0 <= i < decimal(n).len() ==> is_digit(#[trigger] decimal(n)[i]),
    decreases n,
{
    if n < 10 {
        assert(decimal(n).drop_last() =~= Seq::<char>::empty());
        assert(digit_value(digit(n)) == n);
        assert(digits_value(decimal(n)) == digits_value(Seq::<char>::empty()) * 10 + digit_value(
            digit(n),
        ));
    } else {
        lemma_decimal(n / 10);
        let d = decimal(n);
        assert(d.drop_last() =~= decimal(n / 10));
        assert(digit_value(digit(n % 10)) == n % 10);
        assert((n / 10) * 10 + n % 10 == n);
        assert(d.last() == digit(n % 10));
        assert(digits_value(d) == digits_value(d.drop_last()) * 10 + digit_value(d.last()));
        assert forall|i: int| 0 <= i < d.len() implies is_digit(#[trigger] d[i]) by {
            if i < d.len() - 1 {
                assert(d[i] == decimal(n / 10)[i]);
            }
        }
    }
}

proof fn lemma_leading_zeros(z: nat, s: Seq<char>)
    ensures
        digits_value(Seq::new(z, |i: int| '0') + s) == digits_value(s),
    decreases s.len(), z,
{
    let t = Seq::new(z, |i: int| '0') + s;
    if s.len() == 0 {
        assert(t =~= Seq::new(z, |i: int| '0'));
        if z > 0 {
            assert(t.drop_last() =~= Seq::new((z - 1) as nat, |i: int| '0') + s);
            lemma_leading_zeros((z - 1) as nat, s);
        }
    } else {
        assert(t.drop_last() =~= Seq::new(z, |i: int| '0') + s.drop_last());
        lemma_leading_zeros(z, s.drop_last());
    }
}

/// The text of an index is made of digits and reads back as the index.
pub proof fn lemma_index_text(n: nat)
    ensures
        digits_value(index_text(n)) == n,
        index_text(n).len() >= 4,
        forall|i: int| 0 <= i < index_text(n).len() ==> is_digit(#[trigger] index_text(n)[i]),
{
    lemma_decimal(n);
    let d = decimal(n);
    if d.len() < 4 {
        lemma_leading_zeros((4 - d.len()) as nat, d);
        let t = index_text(n);
        assert forall|i: int| 0 <= i < t.len() implies is_digit(#[trigger] t[i]) by {
            if i >= 4 - d.len() {
                assert(t[i] == d[i - (4 - d.len())]);
            }
        }
    }
}

/// Distinct indices give distinct new names, whatever the extensions.
pub proof fn lemma_image_target_injective(a: nat, ea: Seq<char>, b: nat, eb: Seq<char>)
    requires
        image_target(a, ea) == image_target(b, eb),
    ensures
        a == b,
        ea == eb,
{
    lemma_index_text(a);
    lemma_index_text(b);
    let p = index_text(a);
    let q = index_text(b);
    let lp = p.len() as int;
    let lq = q.len() as int;
    let s = image_target(a, ea);
    let t = image_target(b, eb);
    if lp < lq {
        assert(s[4 + lp] == '.');
        assert(t[4 + lp] == q[lp]);
    } else if lq < lp {
        assert(t[4 + lq] == '.');
        assert(s[4 + lq] == p[lq]);
    } else {
        assert(s.subrange(4, 4 + lp) =~= p);
        assert(t.subrange(4, 4 + lq) =~= q);
        assert(s.subrange(5 + lp, s.len() as int) =~= ea);
        assert(t.subrange(5 + lq, t.len() as int) =~= eb);
    }
}

fn push_digit(s: &mut String, d: usize)
    requires
        d < 10,
    ensures
        final(s)@ == old(s)@.push(digit(d as nat)),
{
    proof {
        reveal_strlit("0");
        reveal_strlit("1");
        reveal_strlit("2");
        reveal_strlit("3");
        reveal_strlit("4");
        reveal_strlit("5");
        reveal_strlit("6");
        reveal_strlit("7");
        reveal_strlit("8");
        reveal_strlit("9");
    }
    let t = if d == 0 { "0" }
    else if d == 1 { "1" }
    else if d == 2 { "2" }
    else if d == 3 { "3" }
    else if d == 4 { "4" }
    else if d == 5 { "5" }
    else if d == 6 { "6" }
    else if d == 7 { "7" }
    else if d == 8 { "8" }
    else { "9" };
    assert(t@ =~= seq![digit(d as nat)]);
    s.append(t);
}

fn push_decimal(s: &mut String, n: usize)
    ensures
        final(s)@ == old(s)@ + decimal(n as nat),
    decreases n,
{
    if n >= 10 {
        push_decimal(s, n / 10);
    }
    push_digit(s, n % 10);
    assert(final(s)@ =~= old(s)@ + decimal(n as nat));
}

/// `n` in decimal, padded with zeros to at least four digits.
pub fn format_index(n: usize) -> (r: String)
    ensures
        r@ == index_text(n as nat),
{
    let mut d = String::new();
    push_decimal(&mut d, n);
    assert(d@ =~= decimal(n as nat));
    let len = d.as_str().unicode_len();
    let mut r = String::new();
    let mut k: usize = len;
    proof {
        reveal_strlit("0");
    }
    while k < 4
        invariant
            len <= k <= 4 || (len == k && k >= 4),
            r@ =~= Seq::new((k - len) as nat, |i: int| '0'),
        decreases 4 - k,
    {
        proof {
            reveal_strlit("0");
        }
        r.append("0");
        k = k + 1;
    }
    r.append(d.as_str());
    r
}

/// The new name of the image with index `n` and extension `ext`: `img_`, the padded index,
/// `.`, then `ext` as it is.
pub fn image_target_name(n: usize, ext: &str) -> (r: String)
    ensures
        r@ == image_target(n as nat, ext@),
{
    proof {
        reveal_strlit("img_");
        reveal_strlit(".");
        assert("img_"@ =~= img_prefix());
    }
    let mut r = String::from_str("img_");
    let t = format_index(n);
    r.append(t.as_str());
    r.append(".");
    r.append(ext);
    assert(r@ =~= image_target(n as nat, ext@));
    r
}

/// The new name of the annotation with index `n`: `img_`, the padded index, then `.txt`.
pub fn label_target_name(n: usize) -> (r: String)
    ensures
        r@ == label_target(n as nat),
{
    proof {
        reveal_strlit("txt");
        assert("txt"@ =~= txt());
    }
    image_target_name(n, "txt")
}

} // verus!
