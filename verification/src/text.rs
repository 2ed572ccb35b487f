//! Text utilities for command names: lexicographic ordering (for the sorted
//! command index), prefix tests (for fallback resolution and autocomplete),
//! case/whitespace normalization, and list rendering.

use vstd::prelude::*;
use vstd::utf8::char_u32_cast;

verus! {

/// Strict lexicographic order on character sequences, by code point.
/// The empty sequence comes first.
pub open spec fn lex_lt(a: Seq<char>, b: Seq<char>) -> bool
    decreases a.len(),
{
    if b.len() == 0 {
        false
    } else if a.len() == 0 {
        true
    } else if a[0] != b[0] {
        (a[0] as u32) < (b[0] as u32)
    } else {
        lex_lt(a.drop_first(), b.drop_first())
    }
}

pub proof fn lemma_lex_lt_irreflexive(a: Seq<char>)
    ensures
        !lex_lt(a, a),
    decreases a.len(),
{
    if a.len() > 0 {
        lemma_lex_lt_irreflexive(a.drop_first());
    }
}

/// Distinct sequences are ordered one way or the other.
pub proof fn lemma_lex_lt_connected(a: Seq<char>, b: Seq<char>)
    ensures
        a != b ==> (lex_lt(a, b) || lex_lt(b, a)),
    decreases a.len(),
{
    if a.len() == 0 && b.len() == 0 {
        assert(a =~= b);
    } else if a.len() == 0 || b.len() == 0 {
        assert(lex_lt(a, b) || lex_lt(b, a));
    } else if a[0] != b[0] {
        char_u32_cast(a[0], a[0] as u32);
        char_u32_cast(b[0], b[0] as u32);
        assert((a[0] as u32) != (b[0] as u32));
        assert(lex_lt(a, b) == ((a[0] as u32) < (b[0] as u32)));
        assert(lex_lt(b, a) == ((b[0] as u32) < (a[0] as u32)));
    } else {
        lemma_lex_lt_connected(a.drop_first(), b.drop_first());
        if a.drop_first() == b.drop_first() {
            assert(a.drop_first().len() == a.len() - 1);
            assert(b.drop_first().len() == b.len() - 1);
            assert(a.len() == b.len());
            assert forall|k: int| 0 <= k < a.len() implies a[k] == b[k] by {
                if k > 0 {
                    assert(a[k] == a.drop_first()[k - 1]);
                    assert(b[k] == b.drop_first()[k - 1]);
                }
            }
            assert(a =~= b);
        }
    }
}

pub proof fn lemma_lex_lt_transitive(a: Seq<char>, b: Seq<char>, c: Seq<char>)
    requires
        lex_lt(a, b),
        lex_lt(b, c),
    ensures
        lex_lt(a, c),
    decreases a.len(),
{
    if a.len() > 0 && b.len() > 0 && c.len() > 0 && a[0] == b[0] && b[0] == c[0] {
        lemma_lex_lt_transitive(a.drop_first(), b.drop_first(), c.drop_first());
    }
}

/// Dropping a common prefix does not change the order.
pub proof fn lemma_lex_lt_common_prefix(a: Seq<char>, b: Seq<char>, i: int)
    requires
        0 <= i <= a.len(),
        i <= b.len(),
        forall|k: int| 0 <= k < i ==> a[k] == b[k],
    ensures
        lex_lt(a, b) == lex_lt(a.skip(i), b.skip(i)),
    decreases i,
{
    if i > 0 {
        assert(a[0] == b[0]);
        assert(a.len() > 0 && b.len() > 0);
        assert(lex_lt(a, b) == lex_lt(a.drop_first(), b.drop_first()));
        lemma_lex_lt_common_prefix(a.drop_first(), b.drop_first(), i - 1);
        assert(a.drop_first().skip(i - 1) =~= a.skip(i));
        assert(b.drop_first().skip(i - 1) =~= b.skip(i));
    } else {
        assert(a.skip(0) =~= a);
        assert(b.skip(0) =~= b);
    }
}

/// Lexicographic comparison of two strings, by character.
pub fn str_lt(a: &str, b: &str) -> (r: bool)
    ensures
        r == lex_lt(a@, b@),
{
    let alen = a.unicode_len();
    let blen = b.unicode_len();
    let mut i: usize = 0;
    while i < alen && i < blen
        invariant
            alen == a@.len(),
            blen == b@.len(),
            i <= alen,
            i <= blen,
            forall|k: int| 0 <= k < i ==> a@[k] == b@[k],
        decreases alen - i,
    {
        let ca = a.get_char(i);
        let cb = b.get_char(i);
        if ca != cb {
            proof {
                lemma_lex_lt_common_prefix(a@, b@, i as int);
                assert(a@.skip(i as int)[0] == ca);
                assert(b@.skip(i as int)[0] == cb);
            }
            return (ca as u32) < (cb as u32);
        }
        i = i + 1;
    }
    proof {
        lemma_lex_lt_common_prefix(a@, b@, i as int);
        if alen == blen {
            assert(a@.skip(i as int).len() == 0);
            assert(b@.skip(i as int).len() == 0);
        } else if alen < blen {
            assert(a@.skip(i as int).len() == 0);
            assert(b@.skip(i as int).len() > 0);
        } else {
            assert(b@.skip(i as int).len() == 0);
        }
    }
    alen < blen
}

/// The whitespace characters that normalization strips from both ends.
pub open spec fn is_ws(c: char) -> bool {
    c == ' ' || c == '\t' || c == '\n' || c == '\r'
}

/// ASCII uppercase letters map to their lowercase counterparts; every other
/// character is left alone.
pub open spec fn lower_char(c: char) -> char {
    if 'A' as u32 <= c as u32 && c as u32 <= 'Z' as u32 {
        ((c as u32) + 32) as char
    } else {
        c
    }
}

pub open spec fn lower_spec(s: Seq<char>) -> Seq<char> {
    s.map_values(|c: char| lower_char(c))
}

pub open spec fn trim_front(s: Seq<char>) -> Seq<char>
    decreases s.len(),
{
    if s.len() > 0 && is_ws(s[0]) {
        trim_front(s.drop_first())
    } else {
        s
    }
}

pub open spec fn trim_back(s: Seq<char>) -> Seq<char>
    decreases s.len(),
{
    if s.len() > 0 && is_ws(s.last()) {
        trim_back(s.drop_last())
    } else {
        s
    }
}

pub open spec fn trim_spec(s: Seq<char>) -> Seq<char> {
    trim_back(trim_front(s))
}

/// Command-name normalization: strip surrounding whitespace, lowercase.
pub open spec fn norm_spec(s: Seq<char>) -> Seq<char> {
    lower_spec(trim_spec(s))
}

/// Characterization of `trim_front` as a subrange: cutting exactly the
/// leading whitespace.
proof fn lemma_trim_front_subrange(s: Seq<char>, i: int)
    requires
        0 <= i <= s.len(),
        forall|k: int| 0 <= k < i ==> is_ws(s[k]),
        i == s.len() || !is_ws(s[i]),
    ensures
        trim_front(s) == s.subrange(i, s.len() as int),
    decreases i,
{
    if i == 0 {
        assert(s.subrange(0, s.len() as int) =~= s);
    } else {
        assert(is_ws(s[0]));
        let t = s.drop_first();
        assert(forall|k: int| 0 <= k < i - 1 ==> is_ws(t[k]));
        lemma_trim_front_subrange(t, i - 1);
        assert(t.subrange(i - 1, t.len() as int) =~= s.subrange(i, s.len() as int));
    }
}

/// Characterization of `trim_back` as a subrange: cutting exactly the
/// trailing whitespace.
proof fn lemma_trim_back_subrange(s: Seq<char>, j: int)
    requires
        0 <= j <= s.len(),
        forall|k: int| j <= k < s.len() ==> is_ws(s[k]),
        j == 0 || !is_ws(s[j - 1]),
    ensures
        trim_back(s) == s.subrange(0, j),
    decreases s.len() - j,
{
    if j == s.len() {
        assert(s.subrange(0, j) =~= s);
    } else {
        assert(is_ws(s.last()));
        let t = s.drop_last();
        assert(forall|k: int| j <= k < t.len() ==> is_ws(t[k]));
        lemma_trim_back_subrange(t, j);
        assert(t.subrange(0, j) =~= s.subrange(0, j));
    }
}

/// Is `c` one of the whitespace characters that normalization strips?
fn char_is_ws(c: char) -> (r: bool)
    ensures
        r == is_ws(c),
{
    match c {
        ' ' | '\t' | '\n' | '\r' => true,
        _ => false,
    }
}

/// Lowercase a one-character string.
fn lower_piece<'a>(piece: &'a str) -> (r: &'a str)
    requires
        piece@.len() == 1,
    ensures
        r@ == seq![lower_char(piece@[0])],
{
    let c = piece.get_char(0);
    proof {
        reveal_strlit("a");
        reveal_strlit("b");
        reveal_strlit("c");
        reveal_strlit("d");
        reveal_strlit("e");
        reveal_strlit("f");
        reveal_strlit("g");
        reveal_strlit("h");
        reveal_strlit("i");
        reveal_strlit("j");
        reveal_strlit("k");
        reveal_strlit("l");
        reveal_strlit("m");
        reveal_strlit("n");
        reveal_strlit("o");
        reveal_strlit("p");
        reveal_strlit("q");
        reveal_strlit("r");
        reveal_strlit("s");
        reveal_strlit("t");
        reveal_strlit("u");
        reveal_strlit("v");
        reveal_strlit("w");
        reveal_strlit("x");
        reveal_strlit("y");
        reveal_strlit("z");
        assert(piece@ =~= seq![piece@[0]]);
    }
    match c {
        'A' => "a",
        'B' => "b",
        'C' => "c",
        'D' => "d",
        'E' => "e",
        'F' => "f",
        'G' => "g",
        'H' => "h",
        'I' => "i",
        'J' => "j",
        'K' => "k",
        'L' => "l",
        'M' => "m",
        'N' => "n",
        'O' => "o",
        'P' => "p",
        'Q' => "q",
        'R' => "r",
        'S' => "s",
        'T' => "t",
        'U' => "u",
        'V' => "v",
        'W' => "w",
        'X' => "x",
        'Y' => "y",
        'Z' => "z",
        _ => piece,
    }
}

/// Normalize a requested or cataloged command name: strip surrounding
/// whitespace and lowercase ASCII letters, so that lookups are
/// case- and padding-insensitive.
pub fn normalize_name(s: &str) -> (r: String)
    ensures
        r@ == norm_spec(s@),
{
    let len = s.unicode_len();
    let mut i: usize = 0;
    while i < len && char_is_ws(s.get_char(i))
        invariant
            len == s@.len(),
            i <= len,
            forall|k: int| 0 <= k < i ==> is_ws(s@[k]),
        decreases len - i,
    {
        i = i + 1;
    }
    let mut j: usize = len;
    while j > i && char_is_ws(s.get_char(j - 1))
        invariant
            len == s@.len(),
            i <= j <= len,
            forall|k: int| j <= k < len ==> is_ws(s@[k]),
        decreases j,
    {
        j = j - 1;
    }
    let t = s.substring_char(i, j);
    proof {
        lemma_trim_front_subrange(s@, i as int);
        let f = s@.subrange(i as int, s@.len() as int);
        lemma_trim_back_subrange(f, j - i);
        assert(f.subrange(0, j - i) =~= s@.subrange(i as int, j as int));
        assert(t@ == trim_spec(s@));
    }
    let tlen = j - i;
    let mut out = String::new();
    let mut k: usize = 0;
    while k < tlen
        invariant
            tlen == t@.len(),
            k <= tlen,
            out@ == lower_spec(t@.take(k as int)),
        decreases tlen - k,
    {
        let piece = t.substring_char(k, k + 1);
        proof {
            assert(piece@ =~= seq![t@[k as int]]);
        }
        let lp = lower_piece(piece);
        out.append(lp);
        proof {
            assert(lower_spec(t@.take(k + 1 as int)) =~= lower_spec(t@.take(k as int)) + seq![
                lower_char(t@[k as int]),
            ]);
        }
        k = k + 1;
    }
    proof {
        assert(t@.take(tlen as int) =~= t@);
    }
    out
}

/// Does `s` start with `p`?
pub fn str_starts_with(s: &str, p: &str) -> (r: bool)
    ensures
        r == p@.is_prefix_of(s@),
{
    let slen = s.unicode_len();
    let plen = p.unicode_len();
    if plen > slen {
        return false;
    }
    let mut i: usize = 0;
    while i < plen
        invariant
            slen == s@.len(),
            plen == p@.len(),
            plen <= slen,
            i <= plen,
            forall|k: int| 0 <= k < i ==> p@[k] == s@[k],
        decreases plen - i,
    {
        if p.get_char(i) != s.get_char(i) {
            proof {
                assert(p@[i as int] != s@.subrange(0, p@.len() as int)[i as int]);
            }
            return false;
        }
        i = i + 1;
    }
    proof {
        assert(p@ =~= s@.subrange(0, p@.len() as int));
    }
    true
}

} // verus!

verus! {

/// A sequence is normalized when normalizing it again changes nothing.
pub open spec fn is_normalized(s: Seq<char>) -> bool {
    norm_spec(s) == s
}

proof fn lemma_lower_char_props(c: char)
    ensures
        lower_char(lower_char(c)) == lower_char(c),
        is_ws(lower_char(c)) == is_ws(c),
{
    if 'A' as u32 <= c as u32 && c as u32 <= 'Z' as u32 {
        assert((((c as u32) + 32) as char) as u32 == (c as u32) + 32);
    }
}

/// Law: normalization is idempotent, so normalized keys can be looked up by
/// their own spelling.
pub proof fn lemma_norm_idempotent(s: Seq<char>)
    ensures
        norm_spec(norm_spec(s)) == norm_spec(s),
{
    let t = trim_spec(s);
    let l = lower_spec(t);
    lemma_trim_spec_ends(s);
    assert forall|k: int| 0 <= k < l.len() implies is_ws(l[k]) == is_ws(t[k]) by {
        lemma_lower_char_props(t[k]);
    }
    if l.len() > 0 {
        assert(!is_ws(l[0]));
        assert(!is_ws(l.last()));
    }
    assert(trim_front(l) == l);
    assert(trim_back(l) == l);
    assert(trim_spec(l) == l);
    assert forall|k: int| 0 <= k < l.len() implies lower_char(l[k]) == l[k] by {
        lemma_lower_char_props(t[k]);
    }
    assert(lower_spec(l) =~= l);
}

/// A trimmed sequence has no whitespace at either end.
proof fn lemma_trim_spec_ends(s: Seq<char>)
    ensures
        trim_spec(s).len() > 0 ==> !is_ws(trim_spec(s)[0]),
        trim_spec(s).len() > 0 ==> !is_ws(trim_spec(s).last()),
{
    let f = trim_front(s);
    lemma_trim_front_head(s);
    lemma_trim_back_last(f);
    lemma_trim_back_head(f);
}

proof fn lemma_trim_front_head(s: Seq<char>)
    ensures
        trim_front(s).len() > 0 ==> !is_ws(trim_front(s)[0]),
    decreases s.len(),
{
    if s.len() > 0 && is_ws(s[0]) {
        lemma_trim_front_head(s.drop_first());
    }
}

proof fn lemma_trim_back_last(s: Seq<char>)
    ensures
        trim_back(s).len() > 0 ==> !is_ws(trim_back(s).last()),
    decreases s.len(),
{
    if s.len() > 0 && is_ws(s.last()) {
        lemma_trim_back_last(s.drop_last());
    }
}

/// `trim_back` only cuts from the back, so it keeps the head.
proof fn lemma_trim_back_head(s: Seq<char>)
    ensures
        trim_back(s).len() > 0 ==> trim_back(s)[0] == s[0],
    decreases s.len(),
{
    if s.len() > 0 && is_ws(s.last()) {
        lemma_trim_back_head(s.drop_last());
    }
}

/// The decimal digit character for `d`.
pub open spec fn dec_digit(d: int) -> char {
    (('0' as u32) + d) as char
}

/// Decimal rendering of `n`, most significant digit first.
pub open spec fn dec_spec(n: nat) -> Seq<char>
    decreases n,
{
    if n < 10 {
        seq![dec_digit(n as int)]
    } else {
        dec_spec((n / 10) as nat) + seq![dec_digit((n % 10) as int)]
    }
}

fn digit_piece(d: usize) -> (r: &'static str)
    requires
        d < 10,
    ensures
        r@ == seq![dec_digit(d as int)],
{
    proof {
        reveal_strlit("0");
        reveal_strlit("1");
        reveal_strlit("2");
        reveal_strlit("3");
        reveal_strlit("4");
        reveal_strlit("5");
        reveal_strlit("6");
        reveal_strlit("7");
        reveal_strlit("8");
        reveal_strlit("9");
    }
    match d {
        0 => "0",
        1 => "1",
        2 => "2",
        3 => "3",
        4 => "4",
        5 => "5",
        6 => "6",
        7 => "7",
        8 => "8",
        _ => "9",
    }
}

/// Render `n` in decimal.
pub fn usize_to_string(n: usize) -> (r: String)
    ensures
        r@ == dec_spec(n as nat),
    decreases n,
{
    let d = n % 10;
    let piece = digit_piece(d);
    if n < 10 {
        piece.to_owned()
    } else {
        let mut s = usize_to_string(n / 10);
        s.append(piece);
        s
    }
}

/// The parts joined by the separator, in order.
pub open spec fn join_with(parts: Seq<Seq<char>>, sep: Seq<char>) -> Seq<char>
    decreases parts.len(),
{
    if parts.len() == 0 {
        Seq::empty()
    } else if parts.len() == 1 {
        parts[0]
    } else {
        join_with(parts.drop_last(), sep) + sep + parts.last()
    }
}

/// Render a list of names as one string, separated by `sep`.
pub fn join_names(names: &Vec<String>, sep: &str) -> (r: String)
    ensures
        r@ == join_with(names@.map_values(|s: String| s@), sep@),
{
    let ghost parts = names@.map_values(|s: String| s@);
    let mut out = String::new();
    let mut i: usize = 0;
    while i < names.len()
        invariant
            parts == names@.map_values(|s: String| s@),
            i <= names@.len(),
            out@ == join_with(parts.take(i as int), sep@),
        decreases names@.len() - i,
    {
        if i > 0 {
            out.append(sep);
        }
        out.append(names[i].as_str());
        proof {
            let stepped = parts.take(i + 1 as int);
            assert(stepped.len() == i + 1);
            if i == 0 {
                assert(stepped[0] == parts[0]);
                assert(out@ == parts[0]);
            } else {
                assert(stepped.drop_last() =~= parts.take(i as int));
                assert(stepped.last() == parts[i as int]);
            }
        }
        i = i + 1;
    }
    proof {
        assert(parts.take(names@.len() as int) =~= parts);
    }
    out
}

} // verus!
