//! Character-level helpers: whitespace trimming, quote escaping and
//! lexicographic ordering of character sequences.

use vstd::prelude::*;

verus! {

/// Unicode `White_Space` property, the definition that `str::trim` uses.
pub open spec fn is_whitespace(c: char) -> bool {
    let u = c as u32;
    ||| 0x9 <= u <= 0xd
    ||| u == 0x20
    ||| u == 0x85
    ||| u == 0xa0
    ||| u == 0x1680
    ||| 0x2000 <= u <= 0x200a
    ||| u == 0x2028
    ||| u == 0x2029
    ||| u == 0x202f
    ||| u == 0x205f
    ||| u == 0x3000
}

/// The whitespace characters are exactly the 25 code points of the Unicode
/// `White_Space` property.
pub proof fn lemma_whitespace_code_points(c: char)
    ensures
        is_whitespace(c) <==> set![
            0x9u32, 0xa, 0xb, 0xc, 0xd, 0x20, 0x85, 0xa0, 0x1680, 0x2000, 0x2001, 0x2002, 0x2003,
            0x2004, 0x2005, 0x2006, 0x2007, 0x2008, 0x2009, 0x200a, 0x2028, 0x2029, 0x202f, 0x205f,
            0x3000,
        ].contains(c as u32),
{
}

/// Among ASCII characters, only tab, line feed, vertical tab, form feed,
/// carriage return and space are whitespace; no printable character is.
pub proof fn lemma_ascii_whitespace(c: char)
    requires
        (c as u32) < 0x80,
    ensures
        is_whitespace(c) <==> ((c as u32) == 0x20 || 0x9 <= (c as u32) <= 0xd),
        0x21 <= (c as u32) <= 0x7e ==> !is_whitespace(c),
{
}

/// Executable test for [`is_whitespace`].
pub fn char_is_whitespace(c: char) -> (b: bool)
    ensures
        b == is_whitespace(c),
{
    let u: u32 = c as u32;
    (0x9 <= u && u <= 0xd) || u == 0x20 || u == 0x85 || u == 0xa0 || u == 0x1680 || (0x2000 <= u
        && u <= 0x200a) || u == 0x2028 || u == 0x2029 || u == 0x202f || u == 0x205f || u == 0x3000
}

/// `s` without its leading whitespace.
pub open spec fn trim_start(s: Seq<char>) -> Seq<char>
    decreases s.len(),
{
    if s.len() > 0 && is_whitespace(s[0]) {
        trim_start(s.drop_first())
    } else {
        s
    }
}

/// `s` without its trailing whitespace.
pub open spec fn trim_end(s: Seq<char>) -> Seq<char>
    decreases s.len(),
{
    if s.len() > 0 && is_whitespace(s.last()) {
        trim_end(s.drop_last())
    } else {
        s
    }
}

/// `s` without its leading and trailing whitespace.
pub open spec fn trim(s: Seq<char>) -> Seq<char> {
    trim_end(trim_start(s))
}

/// Neither the first nor the last character of `s` is whitespace.
pub open spec fn is_trimmed(s: Seq<char>) -> bool {
    s.len() > 0 ==> !is_whitespace(s[0]) && !is_whitespace(s.last())
}

proof fn lemma_trim_start_at(s: Seq<char>, a: int)
    requires
        0 <= a <= s.len(),
        forall|i: int| 0 <= i < a ==> is_whitespace(#[trigger] s[i]),
        a < s.len() ==> !is_whitespace(s[a]),
    ensures
        trim_start(s) == s.subrange(a, s.len() as int),
    decreases a,
{
    if a == 0 {
        assert(s.subrange(0, s.len() as int) =~= s);
    } else {
        let t = s.drop_first();
        assert forall|i: int| 0 <= i < a - 1 implies is_whitespace(#[trigger] t[i]) by {
            assert(t[i] == s[i + 1]);
        }
        lemma_trim_start_at(t, a - 1);
        assert(t.subrange(a - 1, t.len() as int) =~= s.subrange(a, s.len() as int));
    }
}

proof fn lemma_trim_end_at(s: Seq<char>, b: int)
    requires
        0 <= b <= s.len(),
        forall|i: int| b <= i < s.len() ==> is_whitespace(#[trigger] s[i]),
        b > 0 ==> !is_whitespace(s[b - 1]),
    ensures
        trim_end(s) == s.subrange(0, b),
    decreases s.len() - b,
{
    if b == s.len() {
        assert(s.subrange(0, b) =~= s);
    } else {
        let t = s.drop_last();
        assert(is_whitespace(s[s.len() - 1]));
        assert forall|i: int| b <= i < t.len() implies is_whitespace(#[trigger] t[i]) by {
            assert(t[i] == s[i]);
        }
        lemma_trim_end_at(t, b);
        assert(t.subrange(0, b) =~= s.subrange(0, b));
    }
}

/// Trimming is the subrange between the first and one past the last
/// non-whitespace character.
pub proof fn lemma_trim_bounds(s: Seq<char>, a: int, b: int)
    requires
        0 <= a <= b <= s.len(),
        forall|i: int| 0 <= i < a ==> is_whitespace(#[trigger] s[i]),
        forall|i: int| b <= i < s.len() ==> is_whitespace(#[trigger] s[i]),
        a < b ==> !is_whitespace(s[a]) && !is_whitespace(s[b - 1]),
        a == b ==> forall|i: int| 0 <= i < s.len() ==> is_whitespace(#[trigger] s[i]),
    ensures
        trim(s) == s.subrange(a, b),
{
    if a == b {
        lemma_trim_start_at(s, s.len() as int);
        let t = s.subrange(s.len() as int, s.len() as int);
        lemma_trim_end_at(t, 0);
        assert(t.subrange(0, 0) =~= s.subrange(a, b));
    } else {
        lemma_trim_start_at(s, a);
        let t = s.subrange(a, s.len() as int);
        assert forall|i: int| b - a <= i < t.len() implies is_whitespace(#[trigger] t[i]) by {
            assert(t[i] == s[i + a]);
        }
        lemma_trim_end_at(t, b - a);
        assert(t.subrange(0, b - a) =~= s.subrange(a, b));
    }
}

proof fn lemma_trim_start_shape(s: Seq<char>)
    ensures
        trim_start(s).len() <= s.len(),
        trim_start(s) == s.subrange(s.len() - trim_start(s).len(), s.len() as int),
        trim_start(s).len() > 0 ==> !is_whitespace(trim_start(s)[0]),
        forall|i: int| 0 <= i < s.len() - trim_start(s).len() ==> is_whitespace(#[trigger] s[i]),
    decreases s.len(),
{
    if s.len() > 0 && is_whitespace(s[0]) {
        lemma_trim_start_shape(s.drop_first());
        let t = trim_start(s);
        assert forall|i: int| 0 <= i < s.len() - t.len() implies is_whitespace(#[trigger] s[i]) by {
            if i > 0 {
                assert(s[i] == s.drop_first()[i - 1]);
            }
        }
        assert(s.drop_first().subrange(s.len() - 1 - t.len(), s.len() - 1) =~= s.subrange(
            s.len() - t.len(),
            s.len() as int,
        ));
    } else {
        assert(s.subrange(0, s.len() as int) =~= s);
    }
}

proof fn lemma_trim_end_shape(s: Seq<char>)
    ensures
        trim_end(s).len() <= s.len(),
        trim_end(s) == s.subrange(0, trim_end(s).len() as int),
        trim_end(s).len() > 0 ==> !is_whitespace(trim_end(s).last()),
        forall|i: int| trim_end(s).len() <= i < s.len() ==> is_whitespace(#[trigger] s[i]),
    decreases s.len(),
{
    if s.len() > 0 && is_whitespace(s.last()) {
        lemma_trim_end_shape(s.drop_last());
        let t = trim_end(s);
        assert forall|i: int| t.len() <= i < s.len() implies is_whitespace(#[trigger] s[i]) by {
            if i < s.len() - 1 {
                assert(s[i] == s.drop_last()[i]);
            }
        }
        assert(s.drop_last().subrange(0, t.len() as int) =~= s.subrange(0, t.len() as int));
    } else {
        assert(s.subrange(0, s.len() as int) =~= s);
    }
}

/// Trimming leaves no whitespace at either end, and trimming twice is
/// trimming once.
pub proof fn lemma_trim_idempotent(s: Seq<char>)
    ensures
        is_trimmed(trim(s)),
        trim(trim(s)) == trim(s),
{
    let u = trim_start(s);
    let r = trim_end(u);
    lemma_trim_start_shape(s);
    lemma_trim_end_shape(u);
    if r.len() > 0 {
        assert(r[0] == u[0]);
    }
    lemma_trimmed_is_fixed(r);
}

/// Trimming removes whitespace only, and only at the ends: the result is a
/// run of `s`, every character before it and after it is whitespace, and
/// its own first and last characters are not.
pub proof fn lemma_trim_removes_only_end_whitespace(s: Seq<char>)
    ensures
        exists|a: int, b: int|
            {
                &&& 0 <= a <= b <= s.len()
                &&& trim(s) == s.subrange(a, b)
                &&& forall|i: int| 0 <= i < a ==> is_whitespace(#[trigger] s[i])
                &&& forall|i: int| b <= i < s.len() ==> is_whitespace(#[trigger] s[i])
            },
        is_trimmed(trim(s)),
{
    let u = trim_start(s);
    lemma_trim_start_shape(s);
    lemma_trim_end_shape(u);
    lemma_trim_idempotent(s);
    let a = s.len() - u.len();
    let r = trim_end(u);
    let b = a + r.len();
    assert(r =~= s.subrange(a, b));
    assert forall|i: int| b <= i < s.len() implies is_whitespace(#[trigger] s[i]) by {
        assert(s[i] == u[i - a]);
    }
}

/// A string with no whitespace at either end is its own trim.
pub proof fn lemma_trimmed_is_fixed(t: Seq<char>)
    requires
        is_trimmed(t),
    ensures
        trim(t) == t,
{
    assert(trim_start(t) == t);
    assert(trim_end(t) == t);
}

/// The characters of `s`, in order.
pub fn to_chars(s: &str) -> (v: Vec<char>)
    ensures
        v@ == s@,
{
    let mut v: Vec<char> = Vec::new();
    for c in it: s.chars()
        invariant
            v@ == it.seq().take(it.index()),
    {
        v.push(c);
    }
    v
}

/// `s` with its leading and trailing whitespace removed, as `str::trim` does.
pub fn trim_str(s: &str) -> (res: String)
    ensures
        res@ == trim(s@),
{
    let chars = to_chars(s);
    let n: usize = chars.len();
    let mut a: usize = 0;
    while a < n && char_is_whitespace(chars[a])
        invariant
            a <= n,
            n == chars@.len(),
            chars@ == s@,
            forall|i: int| 0 <= i < a ==> is_whitespace(#[trigger] s@[i]),
        decreases n - a,
    {
        a = a + 1;
    }
    let mut b: usize = n;
    while b > a && char_is_whitespace(chars[b - 1])
        invariant
            a <= b <= n,
            n == chars@.len(),
            chars@ == s@,
            forall|i: int| b <= i < n ==> is_whitespace(#[trigger] s@[i]),
        decreases b,
    {
        b = b - 1;
    }
    proof {
        lemma_trim_bounds(s@, a as int, b as int);
    }
    String::from_str(s.substring_char(a, b))
}

/// What a single character becomes once double quotes are escaped.
pub open spec fn escape_char(c: char) -> Seq<char> {
    if c == '"' {
        seq!['\\', '"']
    } else {
        seq![c]
    }
}

/// `s` with every `"` replaced by `\"`, as `str::replace('"', "\\\"")` does.
pub open spec fn escape_quotes(s: Seq<char>) -> Seq<char>
    decreases s.len(),
{
    if s.len() == 0 {
        Seq::empty()
    } else {
        escape_quotes(s.drop_last()) + escape_char(s.last())
    }
}

/// Escaping distributes over concatenation.
pub proof fn lemma_escape_concat(a: Seq<char>, b: Seq<char>)
    ensures
        escape_quotes(a + b) == escape_quotes(a) + escape_quotes(b),
    decreases b.len(),
{
    if b.len() == 0 {
        assert(a + b =~= a);
        assert(escape_quotes(a) + escape_quotes(b) =~= escape_quotes(a));
    } else {
        lemma_escape_concat(a, b.drop_last());
        assert((a + b).drop_last() =~= a + b.drop_last());
        assert((a + b).last() == b.last());
        assert(escape_quotes(a + b) =~= escape_quotes(a) + escape_quotes(b));
    }
}

/// A string without double quotes is its own escape.
pub proof fn lemma_escape_no_quote(s: Seq<char>)
    requires
        forall|i: int| 0 <= i < s.len() ==> #[trigger] s[i] != '"',
    ensures
        escape_quotes(s) == s,
    decreases s.len(),
{
    if s.len() > 0 {
        lemma_escape_no_quote(s.drop_last());
        assert(escape_quotes(s) =~= s);
    }
}

/// A lone double quote escapes to a backslash and the quote.
pub proof fn lemma_escape_quote()
    ensures
        escape_quotes(seq!['"']) == seq!['\\', '"'],
{
    assert(seq!['"'].drop_last() =~= Seq::<char>::empty());
    assert(escape_quotes(Seq::<char>::empty()) =~= Seq::<char>::empty());
    assert(seq!['"'].last() == '"');
    assert(escape_quotes(seq!['"']) =~= seq!['\\', '"']);
}

/// Escaping loses nothing: distinct strings escape to distinct strings.
pub proof fn lemma_escape_injective(a: Seq<char>, b: Seq<char>)
    requires
        escape_quotes(a) == escape_quotes(b),
    ensures
        a == b,
    decreases a.len() + b.len(),
{
    if a.len() == 0 || b.len() == 0 {
        if a.len() != 0 {
            assert(escape_quotes(a).len() >= 1);
        }
        if b.len() != 0 {
            assert(escape_quotes(b).len() >= 1);
        }
        assert(a =~= b);
    } else {
        let ea = escape_quotes(a.drop_last());
        let eb = escape_quotes(b.drop_last());
        let ca = escape_char(a.last());
        let cb = escape_char(b.last());
        let e = escape_quotes(a);
        assert(e == ea + ca);
        assert(e == eb + cb);
        assert(e.last() == ca.last());
        assert(e.last() == cb.last());
        assert(a.last() == b.last());
        assert(ca == cb);
        assert(ea =~= e.subrange(0, e.len() - ca.len()));
        assert(eb =~= e.subrange(0, e.len() - cb.len()));
        lemma_escape_injective(a.drop_last(), b.drop_last());
        assert(a =~= a.drop_last().push(a.last()));
        assert(b =~= b.drop_last().push(b.last()));
    }
}

/// `s` with every `"` replaced by `\"`.
pub fn escape_quotes_str(s: &str) -> (res: String)
    ensures
        res@ == escape_quotes(s@),
{
    let chars = to_chars(s);
    let n: usize = chars.len();
    let mut res = String::new();
    let mut start: usize = 0;
    let mut i: usize = 0;
    let quote = "\\\"";
    proof {
        reveal_strlit("\\\"");
    }
    while i < n
        invariant
            start <= i <= n,
            n == chars@.len(),
            chars@ == s@,
            quote@ == seq!['\\', '"'],
            res@ == escape_quotes(s@.subrange(0, start as int)),
            forall|k: int| start <= k < i ==> #[trigger] s@[k] != '"',
        decreases n - i,
    {
        if chars[i] == '"' {
            let ghost run = s@.subrange(start as int, i as int);
            let ghost before = s@.subrange(0, start as int);
            res.append(s.substring_char(start, i));
            res.append(quote);
            proof {
                lemma_escape_no_quote(run);
                lemma_escape_concat(before, run);
                let upto = s@.subrange(0, i as int + 1);
                assert(upto.drop_last() =~= before + run);
                assert(upto.last() == '"');
            }
            start = i + 1;
        }
        i = i + 1;
    }
    let ghost run = s@.subrange(start as int, n as int);
    let ghost before = s@.subrange(0, start as int);
    res.append(s.substring_char(start, n));
    proof {
        lemma_escape_no_quote(run);
        lemma_escape_concat(before, run);
        assert(before + run =~= s@);
    }
    res
}

/// Strict lexicographic order on character sequences, characters compared
/// by code point (the order of `String`'s `Ord`).
pub open spec fn char_seq_lt(a: Seq<char>, b: Seq<char>) -> bool
    decreases a.len(),
{
    if b.len() == 0 {
        false
    } else if a.len() == 0 {
        true
    } else if a[0] != b[0] {
        (a[0] as u32) < (b[0] as u32)
    } else {
        char_seq_lt(a.drop_first(), b.drop_first())
    }
}

pub proof fn lemma_char_seq_lt_irreflexive(a: Seq<char>)
    ensures
        !char_seq_lt(a, a),
    decreases a.len(),
{
    if a.len() > 0 {
        lemma_char_seq_lt_irreflexive(a.drop_first());
    }
}

pub proof fn lemma_char_seq_lt_transitive(a: Seq<char>, b: Seq<char>, c: Seq<char>)
    requires
        char_seq_lt(a, b),
        char_seq_lt(b, c),
    ensures
        char_seq_lt(a, c),
    decreases a.len(),
{
    if a.len() > 0 && b.len() > 0 && c.len() > 0 && a[0] == b[0] && b[0] == c[0] {
        lemma_char_seq_lt_transitive(a.drop_first(), b.drop_first(), c.drop_first());
    }
}

pub proof fn lemma_char_seq_lt_total(a: Seq<char>, b: Seq<char>)
    requires
        a != b,
    ensures
        char_seq_lt(a, b) || char_seq_lt(b, a),
    decreases a.len(),
{
    if a.len() == 0 || b.len() == 0 {
        if a.len() == 0 && b.len() == 0 {
            assert(a =~= b);
        }
    } else if a[0] == b[0] {
        if a.drop_first() == b.drop_first() {
            assert(a =~= b.drop_first().insert(0, b[0]));
            assert(b =~= b.drop_first().insert(0, b[0]));
        }
        lemma_char_seq_lt_total(a.drop_first(), b.drop_first());
    } else {
        let x = a[0];
        let y = b[0];
        vstd::utf8::char_u32_cast(x, x as u32);
        vstd::utf8::char_u32_cast(y, y as u32);
        assert((x as u32) != (y as u32));
    }
}

proof fn lemma_char_seq_lt_skip(a: Seq<char>, b: Seq<char>, i: int)
    requires
        0 <= i <= a.len(),
        i <= b.len(),
        forall|k: int| 0 <= k < i ==> a[k] == b[k],
    ensures
        char_seq_lt(a, b) == char_seq_lt(a.skip(i), b.skip(i)),
    decreases i,
{
    if i > 0 {
        lemma_char_seq_lt_skip(a.drop_first(), b.drop_first(), i - 1);
        assert(a.drop_first().skip(i - 1) =~= a.skip(i));
        assert(b.drop_first().skip(i - 1) =~= b.skip(i));
    } else {
        assert(a.skip(0) =~= a);
        assert(b.skip(0) =~= b);
    }
}

/// Single characters are ordered by code point.
pub proof fn lemma_char_seq_lt_single(x: char, y: char)
    ensures
        char_seq_lt(seq![x], seq![y]) <==> (x as u32) < (y as u32),
{
    assert(seq![x][0] == x);
    assert(seq![y][0] == y);
    if x == y {
        lemma_char_seq_lt_irreflexive(seq![x]);
    }
}

/// Two strings are ordered by the code points of the first characters at
/// which they differ.
pub proof fn lemma_char_seq_lt_first_difference(a: Seq<char>, b: Seq<char>, i: int)
    requires
        0 <= i < a.len(),
        i < b.len(),
        forall|k: int| 0 <= k < i ==> a[k] == b[k],
        a[i] != b[i],
    ensures
        char_seq_lt(a, b) <==> (a[i] as u32) < (b[i] as u32),
        char_seq_lt(b, a) <==> (b[i] as u32) < (a[i] as u32),
{
    lemma_char_seq_lt_skip(a, b, i);
    lemma_char_seq_lt_skip(b, a, i);
    assert(a.skip(i)[0] == a[i]);
    assert(b.skip(i)[0] == b[i]);
}

/// A proper prefix comes first.
pub proof fn lemma_char_seq_lt_prefix(a: Seq<char>, b: Seq<char>)
    requires
        a.len() < b.len(),
        a == b.subrange(0, a.len() as int),
    ensures
        char_seq_lt(a, b),
        !char_seq_lt(b, a),
{
    let i = a.len() as int;
    assert forall|k: int| 0 <= k < i implies a[k] == b[k] by {
        assert(a[k] == b.subrange(0, i)[k]);
    }
    lemma_char_seq_lt_skip(a, b, i);
    lemma_char_seq_lt_skip(b, a, i);
    assert(a.skip(i).len() == 0);
}

/// Executable [`char_seq_lt`].
pub fn chars_lt(a: &Vec<char>, b: &Vec<char>) -> (res: bool)
    ensures
        res == char_seq_lt(a@, b@),
{
    let mut i: usize = 0;
    while i < a.len() && i < b.len() && a[i] == b[i]
        invariant
            i <= a@.len(),
            i <= b@.len(),
            forall|k: int| 0 <= k < i ==> a@[k] == b@[k],
        decreases a@.len() - i,
    {
        i = i + 1;
    }
    proof {
        lemma_char_seq_lt_skip(a@, b@, i as int);
    }
    if i == b.len() {
        false
    } else if i == a.len() {
        true
    } else {
        (a[i] as u32) < (b[i] as u32)
    }
}

} // verus!
