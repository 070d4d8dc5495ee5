//! Extraction of messages from template contents, and the text of the
//! catalog that lists them.

use vstd::prelude::*;

use crate::cli::string_views;
use crate::regex_collection::{gettext_values, option_views, tag_values, RegexCollection};
use crate::text::{
    char_seq_lt, chars_lt, escape_quotes, escape_quotes_str, is_trimmed,
    lemma_char_seq_lt_irreflexive, lemma_char_seq_lt_total, lemma_char_seq_lt_transitive,
    lemma_escape_injective, lemma_trim_idempotent, to_chars, trim, trim_str,
};

verus! {

/// A set of messages: no message is held twice.
pub struct MessageSet {
    items: Vec<String>,
}

impl MessageSet {
    #[verifier::type_invariant]
    spec fn distinct(self) -> bool {
        string_views(self.items@).no_duplicates()
    }
}

impl View for MessageSet {
    type V = Set<Seq<char>>;

    closed spec fn view(&self) -> Set<Seq<char>> {
        string_views(self.items@).to_set()
    }
}

impl MessageSet {
    /// The empty set.
    pub fn new() -> (res: MessageSet)
        ensures
            res@ == Set::<Seq<char>>::empty(),
    {
        let res = MessageSet { items: Vec::new() };
        assert(string_views(res.items@).to_set() =~= Set::<Seq<char>>::empty());
        res
    }

    /// Whether `message` is in the set.
    pub fn contains(&self, message: &String) -> (res: bool)
        ensures
            res == self@.contains(message@),
    {
        let mut i: usize = 0;
        while i < self.items.len()
            invariant
                i <= self.items@.len(),
                forall|k: int| 0 <= k < i ==> self.items@[k]@ != message@,
            decreases self.items@.len() - i,
        {
            if self.items[i] == *message {
                proof {
                    assert(string_views(self.items@)[i as int] == message@);
                }
                return true;
            }
            i = i + 1;
        }
        proof {
            if string_views(self.items@).contains(message@) {
                let k = choose|k: int|
                    0 <= k < string_views(self.items@).len() && string_views(self.items@)[k]
                        == message@;
                assert(self.items@[k]@ == message@);
            }
        }
        false
    }

    /// Adds `message`; tells whether it was not there before.
    pub fn insert(&mut self, message: String) -> (added: bool)
        ensures
            final(self)@ == old(self)@.insert(message@),
            added == !old(self)@.contains(message@),
    {
        proof {
            use_type_invariant(&*self);
        }
        if self.contains(&message) {
            proof {
                assert(old(self)@.insert(message@) =~= old(self)@);
            }
            return false;
        }
        let ghost before = string_views(self.items@);
        let mut items: Vec<String> = Vec::new();
        std::mem::swap(&mut items, &mut self.items);
        items.push(message);
        proof {
            assert(string_views(items@) =~= before.push(message@));
            assert(!before.contains(message@));
        }
        self.items = items;
        proof {
            assert(string_views(self.items@) =~= before.push(message@));
            before.lemma_push_to_set_commute(message@);
        }
        true
    }

    /// The number of messages.
    pub fn len(&self) -> (res: usize)
        ensures
            res == self@.len(),
    {
        proof {
            use_type_invariant(self);
            string_views(self.items@).unique_seq_to_set();
        }
        self.items.len()
    }
}

/// The catalog entry of one message: its `msgid` line, with double quotes
/// escaped, and an empty `msgstr` line.
pub open spec fn entry(message: Seq<char>) -> Seq<char> {
    "msgid \""@ + escape_quotes(message) + "\"\nmsgstr \"\"\n"@
}

/// Distinct messages have distinct entries.
pub proof fn lemma_entry_injective(a: Seq<char>, b: Seq<char>)
    requires
        entry(a) == entry(b),
    ensures
        a == b,
{
    reveal_strlit("msgid \"");
    reveal_strlit("\"\nmsgstr \"\"\n");
    let p = "msgid \""@;
    let q = "\"\nmsgstr \"\"\n"@;
    let ea = escape_quotes(a);
    let eb = escape_quotes(b);
    assert(entry(a) == p + ea + q);
    assert(entry(b) == p + eb + q);
    assert(entry(a).len() == p.len() + ea.len() + q.len());
    assert(ea.len() == eb.len());
    assert(ea =~= entry(a).subrange(p.len() as int, (p.len() + ea.len()) as int));
    assert(eb =~= entry(b).subrange(p.len() as int, (p.len() + eb.len()) as int));
    lemma_escape_injective(a, b);
}

/// The catalog entry of `message`.
pub fn format_entry(message: &str) -> (res: String)
    ensures
        res@ == entry(message@),
{
    let mut res = String::from_str("msgid \"");
    let escaped = escape_quotes_str(message);
    res.append(escaped.as_str());
    res.append("\"\nmsgstr \"\"\n");
    res
}

/// Each element is strictly below every later one.
pub open spec fn strictly_sorted(e: Seq<Seq<char>>) -> bool {
    forall|i: int, j: int| 0 <= i < j < e.len() ==> char_seq_lt(#[trigger] e[i], #[trigger] e[j])
}

/// `e` lists the entries of the messages of `messages`, each once, in
/// increasing order.
pub open spec fn is_catalog_of(messages: Set<Seq<char>>, e: Seq<Seq<char>>) -> bool {
    &&& strictly_sorted(e)
    &&& forall|x: Seq<char>|
        #![trigger e.contains(x)]
        e.contains(x) <==> exists|m: Seq<char>| messages.contains(m) && x == #[trigger] entry(m)
}

/// `lines` joined with a newline between each two.
pub open spec fn join_lines(lines: Seq<Seq<char>>) -> Seq<char>
    decreases lines.len(),
{
    if lines.len() == 0 {
        Seq::empty()
    } else if lines.len() == 1 {
        lines[0]
    } else {
        join_lines(lines.drop_last()) + seq!['\n'] + lines.last()
    }
}

/// The sorted entries of `messages` (unique: see [`lemma_sorted_unique`]).
pub open spec fn catalog_entries(messages: Set<Seq<char>>) -> Seq<Seq<char>> {
    choose|e: Seq<Seq<char>>| is_catalog_of(messages, e)
}

/// The text of the catalog of `messages`: their entries in increasing
/// order, separated by blank lines.
pub open spec fn catalog_text(messages: Set<Seq<char>>) -> Seq<char> {
    join_lines(catalog_entries(messages))
}

/// Two strictly sorted sequences with the same elements are equal.
pub proof fn lemma_sorted_unique(e1: Seq<Seq<char>>, e2: Seq<Seq<char>>)
    requires
        strictly_sorted(e1),
        strictly_sorted(e2),
        forall|x: Seq<char>| e1.contains(x) <==> e2.contains(x),
    ensures
        e1 == e2,
    decreases e1.len(),
{
    if e1.len() == 0 {
        if e2.len() > 0 {
            assert(e2.contains(e2[0]));
        }
        assert(e1 =~= e2);
    } else {
        assert(e1.contains(e1[0]));
        let j = choose|j: int| 0 <= j < e2.len() && e2[j] == e1[0];
        assert(e2.contains(e2[0]));
        let i = choose|i: int| 0 <= i < e1.len() && e1[i] == e2[0];
        if e1[0] != e2[0] {
            assert(i > 0 && j > 0);
            assert(char_seq_lt(e1[0], e1[i]));
            assert(char_seq_lt(e2[0], e2[j]));
            lemma_char_seq_lt_transitive(e1[0], e2[0], e1[0]);
            lemma_char_seq_lt_irreflexive(e1[0]);
        }
        let d1 = e1.drop_first();
        let d2 = e2.drop_first();
        assert forall|x: Seq<char>| d1.contains(x) <==> d2.contains(x) by {
            if d1.contains(x) {
                let k = choose|k: int| 0 <= k < d1.len() && d1[k] == x;
                assert(e1[k + 1] == x);
                assert(char_seq_lt(e1[0], e1[k + 1]));
                lemma_char_seq_lt_irreflexive(x);
                assert(e2.contains(x));
                let l = choose|l: int| 0 <= l < e2.len() && e2[l] == x;
                assert(l != 0);
                assert(d2[l - 1] == x);
            }
            if d2.contains(x) {
                let k = choose|k: int| 0 <= k < d2.len() && d2[k] == x;
                assert(e2[k + 1] == x);
                assert(char_seq_lt(e2[0], e2[k + 1]));
                lemma_char_seq_lt_irreflexive(x);
                assert(e1.contains(x));
                let l = choose|l: int| 0 <= l < e1.len() && e1[l] == x;
                assert(l != 0);
                assert(d1[l - 1] == x);
            }
        }
        assert(strictly_sorted(d1)) by {
            assert forall|a: int, b: int| 0 <= a < b < d1.len() implies char_seq_lt(
                #[trigger] d1[a],
                #[trigger] d1[b],
            ) by {
                assert(d1[a] == e1[a + 1]);
                assert(d1[b] == e1[b + 1]);
            }
        }
        assert(strictly_sorted(d2)) by {
            assert forall|a: int, b: int| 0 <= a < b < d2.len() implies char_seq_lt(
                #[trigger] d2[a],
                #[trigger] d2[b],
            ) by {
                assert(d2[a] == e2[a + 1]);
                assert(d2[b] == e2[b + 1]);
            }
        }
        lemma_sorted_unique(d1, d2);
        assert(e1 =~= e2) by {
            assert(e1 =~= d1.insert(0, e1[0]));
            assert(e2 =~= d2.insert(0, e2[0]));
        }
    }
}

/// A set of messages has at most one catalog: its text does not depend on
/// the order in which the messages were gathered.
pub proof fn lemma_catalog_unique(messages: Set<Seq<char>>, e1: Seq<Seq<char>>, e2: Seq<Seq<char>>)
    requires
        is_catalog_of(messages, e1),
        is_catalog_of(messages, e2),
    ensures
        e1 == e2,
{
    assert forall|x: Seq<char>| e1.contains(x) <==> e2.contains(x) by {
        if e1.contains(x) {
            assert(e2.contains(x));
        }
        if e2.contains(x) {
            assert(e1.contains(x));
        }
    }
    lemma_sorted_unique(e1, e2);
}

/// `entries` joined with a newline between each two.
pub fn join_entries(entries: &Vec<String>) -> (res: String)
    ensures
        res@ == join_lines(string_views(entries@)),
{
    let mut res = String::new();
    let newline = "\n";
    proof {
        reveal_strlit("\n");
    }
    let mut k: usize = 0;
    while k < entries.len()
        invariant
            k <= entries@.len(),
            newline@ == seq!['\n'],
            res@ == join_lines(string_views(entries@).take(k as int)),
        decreases entries@.len() - k,
    {
        let ghost before = string_views(entries@).take(k as int);
        if k > 0 {
            res.append(newline);
        }
        res.append(entries[k].as_str());
        proof {
            let after = string_views(entries@).take(k as int + 1);
            assert(after.drop_last() =~= before);
            assert(after.last() == entries@[k as int]@);
            if k == 0 {
                assert(res@ =~= join_lines(after));
            }
        }
        k = k + 1;
    }
    assert(string_views(entries@).take(entries@.len() as int) =~= string_views(entries@));
    res
}

proof fn lemma_insert_sorted(ev: Seq<Seq<char>>, p: int, key: Seq<char>)
    requires
        strictly_sorted(ev),
        0 <= p <= ev.len(),
        forall|j: int| 0 <= j < p ==> char_seq_lt(#[trigger] ev[j], key),
        p < ev.len() ==> char_seq_lt(key, ev[p]),
    ensures
        strictly_sorted(ev.insert(p, key)),
{
    let nv = ev.insert(p, key);
    assert forall|a: int, b: int| 0 <= a < b < nv.len() implies char_seq_lt(
        #[trigger] nv[a],
        #[trigger] nv[b],
    ) by {
        if b < p {
            assert(nv[a] == ev[a] && nv[b] == ev[b]);
        } else if b == p {
            assert(nv[a] == ev[a]);
        } else {
            assert(nv[b] == ev[b - 1]);
            if b - 1 > p {
                assert(char_seq_lt(ev[p], ev[b - 1]));
                lemma_char_seq_lt_transitive(key, ev[p], ev[b - 1]);
            }
            if a < p {
                assert(nv[a] == ev[a]);
                lemma_char_seq_lt_transitive(ev[a], key, ev[b - 1]);
            } else if a > p {
                assert(nv[a] == ev[a - 1]);
            }
        }
    }
}

/// The text of the catalog of `messages`: one entry per message, in
/// increasing order, separated by blank lines.
pub fn render_messages(messages: &MessageSet) -> (res: String)
    ensures
        res@ == catalog_text(messages@),
        is_catalog_of(messages@, catalog_entries(messages@)),
        catalog_entries(messages@).len() == messages@.len(),
{
    proof {
        use_type_invariant(messages);
    }
    let items = &messages.items;
    let n: usize = items.len();
    let ghost views = string_views(items@);
    let mut keys: Vec<Vec<char>> = Vec::new();
    let mut entries: Vec<String> = Vec::new();
    let mut i: usize = 0;
    while i < n
        invariant
            i <= n,
            n == items@.len(),
            views == string_views(items@),
            views.no_duplicates(),
            keys@.len() == entries@.len(),
            keys@.len() == i,
            forall|k: int| 0 <= k < keys@.len() ==> #[trigger] keys@[k]@ == entries@[k]@,
            strictly_sorted(string_views(entries@)),
            forall|x: Seq<char>|
                #![trigger string_views(entries@).contains(x)]
                string_views(entries@).contains(x) <==> exists|k: int|
                    0 <= k < i && x == entry(#[trigger] views[k]),
        decreases n - i,
    {
        let e = format_entry(items[i].as_str());
        let key = to_chars(e.as_str());
        let ghost ev = string_views(entries@);
        proof {
            assert(views[i as int] == items@[i as int]@);
            assert forall|j: int| 0 <= j < ev.len() implies #[trigger] ev[j] != key@ by {
                assert(ev.contains(ev[j]));
                let k = choose|k: int| 0 <= k < i && ev[j] == entry(#[trigger] views[k]);
                if ev[j] == key@ {
                    lemma_entry_injective(views[k], views[i as int]);
                }
            }
        }
        let mut p: usize = 0;
        while p < keys.len() && !chars_lt(&key, &keys[p])
            invariant
                p <= keys@.len(),
                keys@.len() == ev.len(),
                forall|k: int| 0 <= k < keys@.len() ==> #[trigger] keys@[k]@ == ev[k],
                forall|j: int| 0 <= j < p ==> char_seq_lt(#[trigger] ev[j], key@),
                forall|j: int| 0 <= j < ev.len() ==> #[trigger] ev[j] != key@,
                key@ == e@,
            decreases keys@.len() - p,
        {
            proof {
                assert(keys@[p as int]@ == ev[p as int]);
                lemma_char_seq_lt_total(ev[p as int], key@);
            }
            p = p + 1;
        }
        proof {
            if p < keys@.len() {
                assert(keys@[p as int]@ == ev[p as int]);
            }
            lemma_insert_sorted(ev, p as int, key@);
        }
        keys.insert(p, key);
        entries.insert(p, e);
        proof {
            let nv = string_views(entries@);
            assert(nv =~= ev.insert(p as int, e@));
            assert forall|k: int| 0 <= k < keys@.len() implies #[trigger] keys@[k]@
                == entries@[k]@ by {
                if k < p {
                    assert(keys@[k]@ == ev[k]);
                } else if k > p {
                    assert(keys@[k]@ == ev[k - 1]);
                }
            }
            assert forall|x: Seq<char>| #[trigger]
                nv.contains(x) <==> exists|k: int|
                    0 <= k < i + 1 && x == entry(#[trigger] views[k]) by {
                if nv.contains(x) {
                    let j = choose|j: int| 0 <= j < nv.len() && nv[j] == x;
                    if j == p {
                        assert(x == entry(views[i as int]));
                    } else if j < p {
                        assert(ev[j] == x);
                        assert(ev.contains(x));
                    } else {
                        assert(ev[j - 1] == x);
                        assert(ev.contains(x));
                    }
                }
                if exists|k: int| 0 <= k < i + 1 && x == entry(#[trigger] views[k]) {
                    let k = choose|k: int| 0 <= k < i + 1 && x == entry(#[trigger] views[k]);
                    if k == i {
                        assert(nv[p as int] == x);
                    } else {
                        assert(ev.contains(x));
                        let j = choose|j: int| 0 <= j < ev.len() && ev[j] == x;
                        if j < p {
                            assert(nv[j] == x);
                        } else {
                            assert(nv[j + 1] == x);
                        }
                    }
                }
            }
        }
        i = i + 1;
    }
    let res = join_entries(&entries);
    proof {
        let ev = string_views(entries@);
        assert forall|x: Seq<char>| #[trigger]
            ev.contains(x) <==> exists|m: Seq<char>|
                messages@.contains(m) && x == #[trigger] entry(m) by {
            if ev.contains(x) {
                let k = choose|k: int| 0 <= k < n && x == entry(#[trigger] views[k]);
                assert(views.contains(views[k]));
                assert(messages@.contains(views[k]));
            }
            if exists|m: Seq<char>| messages@.contains(m) && x == #[trigger] entry(m) {
                let m = choose|m: Seq<char>| messages@.contains(m) && x == #[trigger] entry(m);
                assert(views.contains(m));
                let k = choose|k: int| 0 <= k < views.len() && views[k] == m;
                assert(x == entry(views[k]));
            }
        }
        assert(is_catalog_of(messages@, ev));
        lemma_catalog_unique(messages@, ev, catalog_entries(messages@));
        views.unique_seq_to_set();
    }
    res
}

/// The trimmed values among `values`.
pub open spec fn captured_messages(values: Seq<Option<Seq<char>>>) -> Set<Seq<char>> {
    Set::new(
        |m: Seq<char>|
            exists|k: int|
                0 <= k < values.len() && (#[trigger] values[k]) is Some && m == trim(values[k]->0),
    )
}

/// Adds to `messages` the trimmed text of every captured value.
pub fn collect_captured_messages(values: &Vec<Option<String>>, messages: &mut MessageSet)
    ensures
        final(messages)@ == old(messages)@.union(captured_messages(option_views(values@))),
{
    let ghost start = messages@;
    let ghost all = option_views(values@);
    let mut i: usize = 0;
    while i < values.len()
        invariant
            i <= values@.len(),
            all == option_views(values@),
            messages@ == start.union(captured_messages(all.take(i as int))),
        decreases values@.len() - i,
    {
        match &values[i] {
            Some(value) => {
                let message = trim_str(value.as_str());
                messages.insert(message);
            },
            None => {},
        }
        proof {
            let prev = all.take(i as int);
            let next = all.take(i as int + 1);
            assert(all[i as int] is Some <==> values@[i as int] is Some);
            assert(values@[i as int] is Some ==> all[i as int]->0 == values@[i as int]->0@);
            assert forall|m: Seq<char>| #[trigger]
                captured_messages(next).contains(m) == (captured_messages(prev).contains(m) || (
                all[i as int] is Some && m == trim(all[i as int]->0))) by {
                if captured_messages(next).contains(m) {
                    let k = choose|k: int|
                        0 <= k < next.len() && (#[trigger] next[k]) is Some && m == trim(
                            next[k]->0,
                        );
                    if k < i {
                        assert(prev[k] == next[k]);
                    }
                }
                if captured_messages(prev).contains(m) {
                    let k = choose|k: int|
                        0 <= k < prev.len() && (#[trigger] prev[k]) is Some && m == trim(
                            prev[k]->0,
                        );
                    assert(prev[k] == next[k]);
                }
                if all[i as int] is Some && m == trim(all[i as int]->0) {
                    assert(next[i as int] == all[i as int]);
                }
            }
            assert(messages@ =~= start.union(captured_messages(next)));
        }
        i = i + 1;
    }
    assert(all.take(values@.len() as int) =~= all);
}

/// Every captured message is trimmed.
pub proof fn lemma_captured_are_trimmed(values: Seq<Option<Seq<char>>>, message: Seq<char>)
    requires
        captured_messages(values).contains(message),
    ensures
        is_trimmed(message),
{
    let k = choose|k: int|
        0 <= k < values.len() && (#[trigger] values[k]) is Some && message == trim(values[k]->0);
    lemma_trim_idempotent(values[k]->0);
}

/// Gathering keeps every present value, trimmed, and nothing else: each
/// `Some` value gives its trim, and each gathered message is the trim of a
/// `Some` value.
pub proof fn lemma_captured_messages_members(values: Seq<Option<Seq<char>>>)
    ensures
        forall|k: int|
            0 <= k < values.len() && (#[trigger] values[k]) is Some ==> captured_messages(
                values,
            ).contains(trim(values[k]->0)),
        forall|m: Seq<char>|
            #[trigger] captured_messages(values).contains(m) ==> exists|k: int|
                0 <= k < values.len() && (#[trigger] values[k]) is Some && m == trim(values[k]->0),
        values.len() == 0 ==> captured_messages(values) == Set::<Seq<char>>::empty(),
{
    assert forall|k: int|
        0 <= k < values.len() && (#[trigger] values[k]) is Some implies captured_messages(
            values,
        ).contains(trim(values[k]->0)) by {}
    if values.len() == 0 {
        assert(captured_messages(values) =~= Set::<Seq<char>>::empty());
    }
}

/// The messages of the gettext tags of `content`.
pub open spec fn content_messages(content: Seq<char>) -> Set<Seq<char>> {
    captured_messages(tag_values(content))
}

/// The messages of the gettext tags of all of `contents`.
pub open spec fn contents_messages(contents: Seq<Seq<char>>) -> Set<Seq<char>> {
    Set::new(
        |m: Seq<char>|
            exists|k: int| 0 <= k < contents.len() && #[trigger] content_messages(contents[k]).contains(m),
    )
}

/// Every gettext tag of a content gives its trimmed message, and every
/// message of a content comes from one of its tags.
pub proof fn lemma_content_messages_members(content: Seq<char>)
    ensures
        forall|k: int|
            0 <= k < tag_values(content).len() && (#[trigger] tag_values(content)[k]) is Some
                ==> content_messages(content).contains(trim(tag_values(content)[k]->0)),
        forall|m: Seq<char>|
            #[trigger] content_messages(content).contains(m) ==> exists|k: int|
                0 <= k < tag_values(content).len() && (#[trigger] tag_values(content)[k]) is Some
                    && m == trim(tag_values(content)[k]->0),
{
    lemma_captured_messages_members(tag_values(content));
}

/// The messages of several contents are those of each of them, together.
pub proof fn lemma_contents_messages_members(contents: Seq<Seq<char>>)
    ensures
        forall|k: int, m: Seq<char>|
            0 <= k < contents.len() && #[trigger] content_messages(contents[k]).contains(m)
                ==> #[trigger] contents_messages(contents).contains(m),
        forall|m: Seq<char>|
            #[trigger] contents_messages(contents).contains(m) ==> exists|k: int|
                0 <= k < contents.len() && #[trigger] content_messages(contents[k]).contains(m),
{
}

/// Adds to `messages` the trimmed message of every gettext tag in
/// `file_content`.
pub fn extract_from_file_content(
    file_content: &str,
    messages: &mut MessageSet,
    regex_collection: &RegexCollection,
)
    ensures
        final(messages)@ == old(messages)@.union(content_messages(file_content@)),
{
    let values = gettext_values(regex_collection, file_content);
    collect_captured_messages(&values, messages);
}

/// The messages of all gettext tags in `contents`, one file content each.
pub fn extract_messages(contents: &Vec<String>, regex_collection: &RegexCollection) -> (res:
    MessageSet)
    ensures
        res@ == contents_messages(string_views(contents@)),
{
    let mut messages = MessageSet::new();
    let ghost all = string_views(contents@);
    let mut i: usize = 0;
    while i < contents.len()
        invariant
            i <= contents@.len(),
            all == string_views(contents@),
            messages@ == contents_messages(all.take(i as int)),
        decreases contents@.len() - i,
    {
        let ghost before = messages@;
        extract_from_file_content(contents[i].as_str(), &mut messages, regex_collection);
        proof {
            let prev = all.take(i as int);
            let next = all.take(i as int + 1);
            assert(all[i as int] == contents@[i as int]@);
            assert forall|m: Seq<char>| #[trigger]
                contents_messages(next).contains(m) == (contents_messages(prev).contains(m)
                    || content_messages(all[i as int]).contains(m)) by {
                if contents_messages(next).contains(m) {
                    let k = choose|k: int|
                        0 <= k < next.len() && #[trigger] content_messages(next[k]).contains(m);
                    if k < i {
                        assert(prev[k] == next[k]);
                    }
                }
                if contents_messages(prev).contains(m) {
                    let k = choose|k: int|
                        0 <= k < prev.len() && #[trigger] content_messages(prev[k]).contains(m);
                    assert(prev[k] == next[k]);
                }
                if content_messages(all[i as int]).contains(m) {
                    assert(next[i as int] == all[i as int]);
                }
            }
            assert(messages@ =~= contents_messages(next));
        }
        i = i + 1;
    }
    assert(all.take(contents@.len() as int) =~= all);
    messages
}

/// Gathering the messages of one content twice gathers nothing new.
pub proof fn lemma_extract_twice(messages: Set<Seq<char>>, content: Seq<char>)
    ensures
        messages.union(content_messages(content)).union(content_messages(content))
            == messages.union(content_messages(content)),
{
    assert(messages.union(content_messages(content)).union(content_messages(content))
        =~= messages.union(content_messages(content)));
}

/// The order in which two contents are gathered does not matter.
pub proof fn lemma_extract_commutes(messages: Set<Seq<char>>, a: Seq<char>, b: Seq<char>)
    ensures
        messages.union(content_messages(a)).union(content_messages(b)) == messages.union(
            content_messages(b),
        ).union(content_messages(a)),
{
    assert(messages.union(content_messages(a)).union(content_messages(b)) =~= messages.union(
        content_messages(b),
    ).union(content_messages(a)));
}

/// Only which contents are given matters: their order and repetitions
/// change neither the messages nor, therefore, the catalog text.
pub proof fn lemma_contents_order_irrelevant(c1: Seq<Seq<char>>, c2: Seq<Seq<char>>)
    requires
        c1.to_set() == c2.to_set(),
    ensures
        contents_messages(c1) == contents_messages(c2),
        catalog_text(contents_messages(c1)) == catalog_text(contents_messages(c2)),
{
    assert forall|m: Seq<char>| #[trigger]
        contents_messages(c1).contains(m) == contents_messages(c2).contains(m) by {
        if contents_messages(c1).contains(m) {
            let k = choose|k: int| 0 <= k < c1.len() && #[trigger] content_messages(c1[k]).contains(m);
            assert(c1.to_set().contains(c1[k]));
            assert(c2.to_set().contains(c1[k]));
            let j = choose|j: int| 0 <= j < c2.len() && c2[j] == c1[k];
            assert(content_messages(c2[j]).contains(m));
        }
        if contents_messages(c2).contains(m) {
            let k = choose|k: int| 0 <= k < c2.len() && #[trigger] content_messages(c2[k]).contains(m);
            assert(c2.to_set().contains(c2[k]));
            assert(c1.to_set().contains(c2[k]));
            let j = choose|j: int| 0 <= j < c1.len() && c1[j] == c2[k];
            assert(content_messages(c1[j]).contains(m));
        }
    }
    assert(contents_messages(c1) =~= contents_messages(c2));
}

} // verus!
