//! Reading a catalog text back: its lines, and the messages of its `msgid`
//! lines.

use vstd::prelude::*;

use crate::extractor::{entry, is_catalog_of, join_lines, lemma_entry_injective};
use crate::text::{escape_char, escape_quotes, lemma_escape_concat};

verus! {

/// `s` with every `\"` read back as `"`.
pub open spec fn unescape_quotes(s: Seq<char>) -> Seq<char>
    decreases s.len(),
{
    if s.len() == 0 {
        Seq::empty()
    } else if s.len() >= 2 && s[0] == '\\' && s[1] == '"' {
        seq!['"'] + unescape_quotes(s.subrange(2, s.len() as int))
    } else {
        seq![s[0]] + unescape_quotes(s.drop_first())
    }
}

/// The lines of `s`: the runs of characters between newlines (one more
/// than there are newlines).
pub open spec fn split_lines(s: Seq<char>) -> Seq<Seq<char>>
    decreases s.len(),
{
    if s.len() == 0 {
        seq![Seq::<char>::empty()]
    } else {
        let rest = split_lines(s.drop_first());
        if s[0] == '\n' {
            seq![Seq::<char>::empty()] + rest
        } else {
            rest.update(0, seq![s[0]] + rest[0])
        }
    }
}

/// The `msgid` line of `message`.
pub open spec fn msgid_line(message: Seq<char>) -> Seq<char> {
    "msgid \""@ + escape_quotes(message) + seq!['"']
}

/// The three lines of the entry of `message`: its `msgid` line, an empty
/// `msgstr` line and a blank line.
pub open spec fn entry_lines(message: Seq<char>) -> Seq<Seq<char>> {
    seq![msgid_line(message), "msgstr \"\""@, Seq::<char>::empty()]
}

/// The lines of the catalog of `messages`, in this order.
pub open spec fn catalog_lines(messages: Seq<Seq<char>>) -> Seq<Seq<char>>
    decreases messages.len(),
{
    if messages.len() == 0 {
        seq![Seq::<char>::empty()]
    } else if messages.len() == 1 {
        entry_lines(messages[0])
    } else {
        catalog_lines(messages.drop_last()) + entry_lines(messages.last())
    }
}

/// A line of the form `msgid "..."`.
pub open spec fn is_msgid_line(line: Seq<char>) -> bool {
    &&& line.len() >= 8
    &&& line.subrange(0, 7) == "msgid \""@
    &&& line.last() == '"'
}

/// The messages of the `msgid` lines among `lines`, quotes unescaped, in
/// order.
pub open spec fn read_msgids(lines: Seq<Seq<char>>) -> Seq<Seq<char>>
    decreases lines.len(),
{
    if lines.len() == 0 {
        Seq::empty()
    } else {
        let rest = read_msgids(lines.drop_last());
        let line = lines.last();
        if is_msgid_line(line) {
            rest.push(unescape_quotes(line.subrange(7, line.len() - 1)))
        } else {
            rest
        }
    }
}

/// A message that a catalog can give back: no backslash, no newline.
pub open spec fn is_plain_message(message: Seq<char>) -> bool {
    !message.contains('\\') && !message.contains('\n')
}

proof fn lemma_split_lines_nonempty(s: Seq<char>)
    ensures
        split_lines(s).len() >= 1,
    decreases s.len(),
{
    if s.len() > 0 {
        lemma_split_lines_nonempty(s.drop_first());
    }
}

proof fn lemma_split_lines_single(s: Seq<char>)
    requires
        !s.contains('\n'),
    ensures
        split_lines(s) == seq![s],
    decreases s.len(),
{
    if s.len() > 0 {
        assert(s[0] != '\n') by {
            if s[0] == '\n' {
                assert(s.contains(s[0]));
            }
        }
        let t = s.drop_first();
        assert(!t.contains('\n')) by {
            if t.contains('\n') {
                let k = choose|k: int| 0 <= k < t.len() && t[k] == '\n';
                assert(s[k + 1] == '\n');
            }
        }
        lemma_split_lines_single(t);
        assert(seq![s[0]] + t =~= s);
        assert(split_lines(s) =~= seq![s]);
    } else {
        assert(s =~= Seq::<char>::empty());
    }
}

proof fn lemma_split_lines_concat(a: Seq<char>, b: Seq<char>)
    ensures
        split_lines(a + seq!['\n'] + b) == split_lines(a) + split_lines(b),
    decreases a.len(),
{
    let s = a + seq!['\n'] + b;
    if a.len() == 0 {
        assert(s.drop_first() =~= b);
        assert(split_lines(a) =~= seq![Seq::<char>::empty()]);
        assert(split_lines(s) =~= split_lines(a) + split_lines(b));
    } else {
        let t = a.drop_first();
        assert(s.drop_first() =~= t + seq!['\n'] + b);
        lemma_split_lines_concat(t, b);
        lemma_split_lines_nonempty(t);
        assert(s[0] == a[0]);
        if a[0] == '\n' {
            assert(split_lines(s) =~= split_lines(a) + split_lines(b));
        } else {
            let r = split_lines(t);
            assert((r + split_lines(b)).update(0, seq![a[0]] + r[0]) =~= r.update(
                0,
                seq![a[0]] + r[0],
            ) + split_lines(b));
        }
    }
}

proof fn lemma_escape_keeps_no_char(m: Seq<char>, c: char)
    requires
        !m.contains(c),
        c != '\\',
        c != '"',
    ensures
        !escape_quotes(m).contains(c),
    decreases m.len(),
{
    if m.len() > 0 {
        let t = m.drop_last();
        assert(!t.contains(c)) by {
            if t.contains(c) {
                let k = choose|k: int| 0 <= k < t.len() && t[k] == c;
                assert(m[k] == c);
            }
        }
        assert(m.last() != c) by {
            assert(m[m.len() - 1] == m.last());
            if m.last() == c {
                assert(m.contains(m[m.len() - 1]));
            }
        }
        lemma_escape_keeps_no_char(t, c);
        let e = escape_quotes(m);
        assert(e == escape_quotes(t) + escape_char(m.last()));
        if e.contains(c) {
            let k = choose|k: int| 0 <= k < e.len() && e[k] == c;
            if k < escape_quotes(t).len() {
                assert(escape_quotes(t)[k] == c);
                assert(escape_quotes(t).contains(c));
            }
        }
    }
}

/// Quotes escaped and read back give the message again.
pub proof fn lemma_unescape_escape(m: Seq<char>)
    requires
        !m.contains('\\'),
    ensures
        unescape_quotes(escape_quotes(m)) == m,
    decreases m.len(),
{
    if m.len() > 0 {
        let c = m[0];
        let t = m.drop_first();
        assert(c != '\\') by {
            if c == '\\' {
                assert(m.contains(m[0]));
            }
        }
        assert(!t.contains('\\')) by {
            if t.contains('\\') {
                let k = choose|k: int| 0 <= k < t.len() && t[k] == '\\';
                assert(m[k + 1] == '\\');
            }
        }
        lemma_unescape_escape(t);
        assert(seq![c] + t =~= m);
        lemma_escape_concat(seq![c], t);
        assert(escape_quotes(seq![c]) =~= escape_char(c)) by {
            assert(seq![c].drop_last() =~= Seq::<char>::empty());
            assert(escape_quotes(Seq::<char>::empty()) =~= Seq::<char>::empty());
            assert(seq![c].last() == c);
        }
        let e = escape_quotes(m);
        assert(e == escape_char(c) + escape_quotes(t));
        if c == '"' {
            assert(e.subrange(2, e.len() as int) =~= escape_quotes(t));
            assert(unescape_quotes(e) =~= m);
        } else {
            assert(e.drop_first() =~= escape_quotes(t));
            assert(unescape_quotes(e) =~= m);
        }
    } else {
        assert(escape_quotes(m) =~= Seq::<char>::empty());
        assert(m =~= Seq::<char>::empty());
    }
}

proof fn lemma_split_entry(m: Seq<char>)
    requires
        is_plain_message(m),
    ensures
        split_lines(entry(m)) == entry_lines(m),
{
    reveal_strlit("msgid \"");
    reveal_strlit("\"\nmsgstr \"\"\n");
    reveal_strlit("msgstr \"\"");
    let l1 = msgid_line(m);
    let l2 = "msgstr \"\""@;
    let empty = Seq::<char>::empty();
    assert("\"\nmsgstr \"\"\n"@ =~= seq!['"', '\n'] + l2 + seq!['\n']);
    assert(entry(m) =~= l1 + seq!['\n'] + (l2 + seq!['\n'] + empty));
    lemma_split_lines_concat(l1, l2 + seq!['\n'] + empty);
    lemma_split_lines_concat(l2, empty);
    lemma_escape_keeps_no_char(m, '\n');
    assert(!l1.contains('\n')) by {
        if l1.contains('\n') {
            let k = choose|k: int| 0 <= k < l1.len() && l1[k] == '\n';
            if 7 <= k < 7 + escape_quotes(m).len() {
                assert(escape_quotes(m)[k - 7] == '\n');
                assert(escape_quotes(m).contains('\n'));
            }
        }
    }
    assert(!l2.contains('\n')) by {
        if l2.contains('\n') {
            let k = choose|k: int| 0 <= k < l2.len() && l2[k] == '\n';
        }
    }
    lemma_split_lines_single(l1);
    lemma_split_lines_single(l2);
    assert(split_lines(empty) =~= seq![empty]);
    assert(split_lines(entry(m)) =~= entry_lines(m));
}

proof fn lemma_read_msgids_concat(a: Seq<Seq<char>>, b: Seq<Seq<char>>)
    ensures
        read_msgids(a + b) == read_msgids(a) + read_msgids(b),
    decreases b.len(),
{
    if b.len() == 0 {
        assert(a + b =~= a);
        assert(read_msgids(a) + read_msgids(b) =~= read_msgids(a));
    } else {
        lemma_read_msgids_concat(a, b.drop_last());
        assert((a + b).drop_last() =~= a + b.drop_last());
        assert((a + b).last() == b.last());
        assert(read_msgids(a + b) =~= read_msgids(a) + read_msgids(b));
    }
}

proof fn lemma_read_entry_lines(m: Seq<char>)
    requires
        is_plain_message(m),
    ensures
        read_msgids(entry_lines(m)) == seq![m],
{
    reveal_strlit("msgid \"");
    reveal_strlit("msgstr \"\"");
    let lines = entry_lines(m);
    let l1 = msgid_line(m);
    let l2 = "msgstr \"\""@;
    assert(!is_msgid_line(Seq::<char>::empty()));
    assert(!is_msgid_line(l2)) by {
        if is_msgid_line(l2) {
            assert(l2.subrange(0, 7)[5] == 't');
        }
    }
    assert(l1.subrange(0, 7) =~= "msgid \""@);
    assert(l1.subrange(7, l1.len() - 1) =~= escape_quotes(m));
    lemma_unescape_escape(m);
    assert(l1.len() >= 8);
    assert(l1.last() == '"');
    assert(is_msgid_line(l1));
    assert(lines.drop_last() =~= seq![l1, l2]);
    assert(seq![l1, l2].drop_last() =~= seq![l1]);
    assert(seq![l1].drop_last() =~= Seq::<Seq<char>>::empty());
    assert(read_msgids(Seq::<Seq<char>>::empty()) =~= Seq::<Seq<char>>::empty());
    assert(read_msgids(seq![l1]) =~= seq![m]);
    assert(read_msgids(seq![l1, l2]) =~= seq![m]);
    assert(lines.last() == Seq::<char>::empty());
}

/// The catalog text of messages that hold no backslash and no newline has,
/// for each message in order, its `msgid` line, an empty `msgstr` line and
/// a blank line; reading the `msgid` lines back gives the messages again.
pub proof fn lemma_catalog_lines(messages: Seq<Seq<char>>)
    requires
        forall|i: int| 0 <= i < messages.len() ==> is_plain_message(#[trigger] messages[i]),
    ensures
        split_lines(join_lines(messages.map_values(|m: Seq<char>| entry(m)))) == catalog_lines(
            messages,
        ),
        read_msgids(catalog_lines(messages)) == messages,
    decreases messages.len(),
{
    let e = messages.map_values(|m: Seq<char>| entry(m));
    if messages.len() == 0 {
        assert(join_lines(e) =~= Seq::<char>::empty());
        assert(split_lines(Seq::<char>::empty()) =~= seq![Seq::<char>::empty()]);
        assert(read_msgids(seq![Seq::<char>::empty()]) =~= Seq::<Seq<char>>::empty()) by {
            assert(seq![Seq::<char>::empty()].drop_last() =~= Seq::<Seq<char>>::empty());
            assert(read_msgids(Seq::<Seq<char>>::empty()) =~= Seq::<Seq<char>>::empty());
            assert(!is_msgid_line(Seq::<char>::empty()));
        }
        assert(messages =~= Seq::<Seq<char>>::empty());
    } else if messages.len() == 1 {
        lemma_split_entry(messages[0]);
        lemma_read_entry_lines(messages[0]);
        assert(messages =~= seq![messages[0]]);
    } else {
        let rest = messages.drop_last();
        let last = messages.last();
        assert forall|i: int| 0 <= i < rest.len() implies is_plain_message(#[trigger] rest[i]) by {
            assert(rest[i] == messages[i]);
        }
        lemma_catalog_lines(rest);
        assert(e.drop_last() =~= rest.map_values(|m: Seq<char>| entry(m)));
        assert(e.last() == entry(last));
        lemma_split_lines_concat(join_lines(e.drop_last()), e.last());
        lemma_split_entry(last);
        lemma_read_entry_lines(last);
        lemma_read_msgids_concat(catalog_lines(rest), entry_lines(last));
        assert(rest.push(last) =~= messages);
    }
}

/// Reading back the catalog of a set of messages that hold no backslash and
/// no newline gives exactly that set, one `msgid` line per entry.
pub proof fn lemma_catalog_reads_back(messages: Set<Seq<char>>, e: Seq<Seq<char>>)
    requires
        is_catalog_of(messages, e),
        forall|m: Seq<char>| #[trigger] messages.contains(m) ==> is_plain_message(m),
    ensures
        read_msgids(split_lines(join_lines(e))).to_set() == messages,
        read_msgids(split_lines(join_lines(e))).len() == e.len(),
{
    let ms = Seq::new(
        e.len(),
        |i: int| choose|m: Seq<char>| messages.contains(m) && e[i] == entry(m),
    );
    assert forall|i: int| 0 <= i < e.len() implies messages.contains(#[trigger] ms[i]) && e[i]
        == entry(ms[i]) by {
        assert(e.contains(e[i]));
    }
    assert(e =~= ms.map_values(|m: Seq<char>| entry(m)));
    lemma_catalog_lines(ms);
    assert forall|m: Seq<char>| #[trigger] ms.to_set().contains(m) == messages.contains(m) by {
        if ms.to_set().contains(m) {
            assert(ms.contains(m));
            let i = choose|i: int| 0 <= i < ms.len() && ms[i] == m;
        }
        if messages.contains(m) {
            assert(e.contains(entry(m)));
            let i = choose|i: int| 0 <= i < e.len() && e[i] == entry(m);
            lemma_entry_injective(ms[i], m);
            assert(ms.contains(ms[i]));
        }
    }
    assert(ms.to_set() =~= messages);
}

} // verus!
