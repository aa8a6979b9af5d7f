//! Append-only JSONL ledger of payments made via `pay_and_fetch`.
//!
//! Each line is one [`LedgerEntry`] as JSON. Lines are only ever added at the end;
//! the reader goes through the whole file and filters in memory (volumes for
//! self-custody use are tiny: humans approve every entry interactively).

use vstd::multiset::Multiset;
use vstd::prelude::*;

use crate::config::{ConfigPath, Network};
use crate::double::Double;
use crate::text::{
    chars_of, is_white_space, law_trimming_takes_off_white_space, push_char, string_of, trim, trimmed,
};

verus! {

/// Number of entries listed when a caller names no limit.
pub const DEFAULT_LIMIT: usize = 100;

#[derive(Debug, Clone, Copy, PartialEq, Eq, Structural)]
pub enum PaymentStatus {
    Settled,
    Failed,
}

/// A moment in UTC: whole seconds since the Unix epoch and the nanoseconds that
/// follow. In a leap second the nanoseconds exceed one second.
#[derive(Debug, Clone, Copy, PartialEq, Eq, Structural)]
pub struct Timestamp {
    pub secs: i64,
    pub nanos: u32,
}

impl Timestamp {
    /// Whether this moment comes before `other`.
    pub open spec fn earlier(self, other: Timestamp) -> bool {
        self.secs < other.secs || (self.secs == other.secs && self.nanos < other.nanos)
    }

    /// Whether this moment comes before `other`.
    pub fn is_before(&self, other: &Timestamp) -> (before: bool)
        ensures
            before == self.earlier(*other),
    {
        self.secs < other.secs || (self.secs == other.secs && self.nanos < other.nanos)
    }
}

/// One payment.
#[derive(Debug, Clone)]
pub struct LedgerEntry {
    pub ts: Timestamp,
    pub url: String,
    pub method: String,
    pub amount_usdc: Double,
    pub pay_to: String,
    pub network: Network,
    pub tx_signature: Option<String>,
    pub status: PaymentStatus,
    pub error: Option<String>,
}

/// Append-only ledger.
#[derive(Debug, Clone)]
pub struct Ledger {
    path: ConfigPath,
}

/// The characters of `text` after its last line feed.
pub open spec fn open_line(text: Seq<char>) -> Seq<char>
    decreases text.len(),
{
    if text.len() == 0 || text.last() == '\n' {
        Seq::empty()
    } else {
        open_line(text.drop_last()).push(text.last())
    }
}

/// `lines` with one line more, trimmed; a blank line is left out.
pub open spec fn with_line(lines: Seq<Seq<char>>, line: Seq<char>) -> Seq<Seq<char>> {
    if trimmed(line).len() > 0 {
        lines.push(trimmed(line))
    } else {
        lines
    }
}

/// The lines of `text` that end in a line feed.
pub open spec fn closed_lines(text: Seq<char>) -> Seq<Seq<char>>
    decreases text.len(),
{
    if text.len() == 0 {
        Seq::empty()
    } else if text.last() == '\n' {
        with_line(closed_lines(text.drop_last()), open_line(text.drop_last()))
    } else {
        closed_lines(text.drop_last())
    }
}

/// The lines of `text`, trimmed, without the blank ones.
pub open spec fn lines_of(text: Seq<char>) -> Seq<Seq<char>> {
    with_line(closed_lines(text), open_line(text))
}

/// Adds `line` to `lines`, trimmed, unless it is blank.
fn add_line(lines: &mut Vec<String>, line: &Vec<char>)
    ensures
        final(lines).deep_view() == with_line(old(lines).deep_view(), line@),
{
    let ghost before = lines@;
    let core = trim(line);
    if core.len() > 0 {
        lines.push(string_of(&core));
        assert(lines.deep_view() =~= old(lines).deep_view().push(core@)) by {
            assert forall|i: int| 0 <= i < before.len() implies lines.deep_view()[i] == old(
                lines,
            ).deep_view()[i] by {
                assert(lines@[i] == before[i]);
            }
        }
    }
}

/// The entries that a file holds, before they are parsed: its lines, trimmed,
/// without the blank ones.
pub fn ledger_lines(text: &str) -> (lines: Vec<String>)
    ensures
        lines.deep_view() == lines_of(text@),
{
    let chars = chars_of(text);
    let mut lines: Vec<String> = Vec::new();
    let mut line: Vec<char> = Vec::new();
    assert(lines.deep_view() =~= seq![]);
    for i in 0..chars.len()
        invariant
            chars@ == text@,
            lines.deep_view() == closed_lines(text@.take(i as int)),
            line@ == open_line(text@.take(i as int)),
    {
        assert(text@.take(i + 1).drop_last() =~= text@.take(i as int));
        if chars[i] == '\n' {
            add_line(&mut lines, &line);
            line = Vec::new();
        } else {
            line.push(chars[i]);
        }
    }
    assert(text@.take(text@.len() as int) =~= text@);
    add_line(&mut lines, &line);
    lines
}

/// Whether an entry is asked for: it is no earlier than `since`.
pub open spec fn is_wanted(entry: LedgerEntry, since: Option<Timestamp>) -> bool {
    since matches Some(cutoff) ==> !entry.ts.earlier(cutoff)
}

/// The entries that are asked for, of those that could be parsed.
pub open spec fn wanted_entries(
    parsed: Seq<Option<LedgerEntry>>,
    since: Option<Timestamp>,
) -> Seq<LedgerEntry>
    decreases parsed.len(),
{
    if parsed.len() == 0 {
        Seq::empty()
    } else {
        let before = wanted_entries(parsed.drop_last(), since);
        match parsed.last() {
            Some(entry) => if is_wanted(entry, since) {
                before.push(entry)
            } else {
                before
            },
            None => before,
        }
    }
}

/// Whether no entry is followed by a later one.
pub open spec fn newest_first(entries: Seq<LedgerEntry>) -> bool {
    forall|i: int, j: int|
        0 <= i < j < entries.len() ==> !(#[trigger] entries[i]).ts.earlier(
            (#[trigger] entries[j]).ts,
        )
}

/// Whether `listed` holds the newest of the entries in `all`, as many as `limit`
/// allows, newest first, and `older` the others; [`newest_entries`] says which of
/// several entries with one time stamp these are.
pub open spec fn lists_newest(
    all: Seq<LedgerEntry>,
    limit: int,
    listed: Seq<LedgerEntry>,
    older: Multiset<LedgerEntry>,
) -> bool {
    &&& listed.to_multiset().add(older) == all.to_multiset()
    &&& listed.len() == if all.len() <= limit {
        all.len() as int
    } else {
        limit
    }
    &&& newest_first(listed)
    &&& forall|entry: LedgerEntry, i: int|
        #![trigger older.count(entry), listed[i]]
        older.count(entry) > 0 && 0 <= i < listed.len() ==> !listed[i].ts.earlier(entry.ts)
}

/// How many entries stand at the front that are no earlier than `ts`.
pub open spec fn leading_not_earlier(entries: Seq<LedgerEntry>, ts: Timestamp) -> int
    decreases entries.len(),
{
    if entries.len() == 0 || entries[0].ts.earlier(ts) {
        0
    } else {
        1 + leading_not_earlier(entries.skip(1), ts)
    }
}

/// How many entries stand at the front that are later than `ts`.
pub open spec fn leading_later(entries: Seq<LedgerEntry>, ts: Timestamp) -> int
    decreases entries.len(),
{
    if entries.len() == 0 || !ts.earlier(entries[0].ts) {
        0
    } else {
        1 + leading_later(entries.skip(1), ts)
    }
}

/// `entries` with one more at its place: behind those that are no earlier.
pub open spec fn with_entry(entries: Seq<LedgerEntry>, entry: LedgerEntry) -> Seq<LedgerEntry> {
    entries.insert(leading_not_earlier(entries, entry.ts), entry)
}

/// `entries`, where they are more than `limit`, without the first of the oldest.
pub open spec fn without_oldest(entries: Seq<LedgerEntry>, limit: int) -> Seq<LedgerEntry> {
    if entries.len() > limit {
        entries.remove(leading_later(entries, entries.last().ts))
    } else {
        entries
    }
}

/// The newest of the entries in `all`, as many as `limit` allows, newest first. Of
/// several with one time stamp the last stay, in the order that they have in `all`.
pub open spec fn newest_entries(all: Seq<LedgerEntry>, limit: int) -> Seq<LedgerEntry>
    decreases all.len(),
{
    if all.len() == 0 {
        Seq::empty()
    } else {
        without_oldest(with_entry(newest_entries(all.drop_last(), limit), all.last()), limit)
    }
}

/// The place that [`leading_not_earlier`] counts up to.
proof fn lemma_leading_not_earlier(entries: Seq<LedgerEntry>, ts: Timestamp)
    ensures
        0 <= leading_not_earlier(entries, ts) <= entries.len(),
        forall|i: int|
            0 <= i < leading_not_earlier(entries, ts) ==> !(#[trigger] entries[i]).ts.earlier(ts),
        leading_not_earlier(entries, ts) < entries.len()
            ==> entries[leading_not_earlier(entries, ts)].ts.earlier(ts),
    decreases entries.len(),
{
    if entries.len() > 0 && !entries[0].ts.earlier(ts) {
        let rest = entries.skip(1);
        lemma_leading_not_earlier(rest, ts);
        assert forall|i: int| 0 <= i < leading_not_earlier(entries, ts) implies !(
        #[trigger] entries[i]).ts.earlier(ts) by {
            if i > 0 {
                assert(entries[i] == rest[i - 1]);
            }
        }
    }
}

/// The place that [`leading_later`] counts up to.
proof fn lemma_leading_later(entries: Seq<LedgerEntry>, ts: Timestamp)
    ensures
        0 <= leading_later(entries, ts) <= entries.len(),
        forall|i: int|
            0 <= i < leading_later(entries, ts) ==> ts.earlier((#[trigger] entries[i]).ts),
        leading_later(entries, ts) < entries.len() ==> !ts.earlier(
            entries[leading_later(entries, ts)].ts,
        ),
    decreases entries.len(),
{
    if entries.len() > 0 && ts.earlier(entries[0].ts) {
        let rest = entries.skip(1);
        lemma_leading_later(rest, ts);
        assert forall|i: int| 0 <= i < leading_later(entries, ts) implies ts.earlier(
            (#[trigger] entries[i]).ts,
        ) by {
            if i > 0 {
                assert(entries[i] == rest[i - 1]);
            }
        }
    }
}

/// An entry at its place keeps a list newest first.
proof fn lemma_with_entry(before: Seq<LedgerEntry>, entry: LedgerEntry)
    requires
        newest_first(before),
    ensures
        newest_first(with_entry(before, entry)),
        with_entry(before, entry).len() == before.len() + 1,
        with_entry(before, entry).to_multiset() == before.to_multiset().insert(entry),
        with_entry(before, entry).contains(entry),
{
    lemma_leading_not_earlier(before, entry.ts);
    let place = leading_not_earlier(before, entry.ts);
    let longer = with_entry(before, entry);
    vstd::seq_lib::to_multiset_insert(before, place, entry);
    assert(longer[place] == entry);
    assert forall|i: int, j: int| 0 <= i < j < longer.len() implies !(
    #[trigger] longer[i]).ts.earlier((#[trigger] longer[j]).ts) by {
        if place < j {
            assert(!before[place].ts.earlier(before[j - 1].ts) || place == j - 1);
            if i < place {
                assert(!before[i].ts.earlier(before[j - 1].ts));
            }
        }
    }
}

/// A list without its oldest entry, and that entry.
proof fn lemma_without_oldest(longer: Seq<LedgerEntry>) -> (oldest: LedgerEntry)
    requires
        newest_first(longer),
        longer.len() > 0,
    ensures
        0 <= leading_later(longer, longer.last().ts) < longer.len(),
        ({
            let rest = longer.remove(leading_later(longer, longer.last().ts));
            &&& newest_first(rest)
            &&& rest.len() == longer.len() - 1
            &&& rest.to_multiset().insert(oldest) == longer.to_multiset()
            &&& forall|i: int|
                0 <= i < rest.len() ==> !(#[trigger] rest[i]).ts.earlier(oldest.ts)
        }),
{
    broadcast use vstd::seq_lib::group_to_multiset_ensures;

    let last = longer.last().ts;
    lemma_leading_later(longer, last);
    let first = leading_later(longer, last);
    assert(first < longer.len()) by {
        if first == longer.len() {
            assert(last.earlier(longer[longer.len() - 1].ts));
        }
    }
    let oldest = longer[first];
    let rest = longer.remove(first);
    vstd::seq_lib::to_multiset_remove(longer, first);
    assert(longer.contains(oldest));
    assert(rest.to_multiset().insert(oldest) =~= longer.to_multiset());
    assert forall|i: int| 0 <= i < rest.len() implies !(#[trigger] rest[i]).ts.earlier(oldest.ts) by {
        let k = if i < first {
            i
        } else {
            i + 1
        };
        assert(rest[i] == longer[k]);
        if k < longer.len() - 1 {
            assert(!longer[k].ts.earlier(longer[longer.len() - 1].ts));
        }
    }
    assert forall|i: int, j: int| 0 <= i < j < rest.len() implies !(
    #[trigger] rest[i]).ts.earlier((#[trigger] rest[j]).ts) by {
        let k = if i < first {
            i
        } else {
            i + 1
        };
        let l = if j < first {
            j
        } else {
            j + 1
        };
        assert(!longer[k].ts.earlier(longer[l].ts));
    }
    oldest
}

/// Lists one entry more, at its place among those listed; where these are now
/// more than `limit` allows, takes the oldest off the list.
fn list_entry(listed: &mut Vec<LedgerEntry>, entry: LedgerEntry, limit: usize)
    requires
        newest_first(old(listed)@),
    ensures
        final(listed)@ == without_oldest(with_entry(old(listed)@, entry), limit as int),
{
    let ghost before = listed@;
    let mut place: usize = 0;
    assert(listed@.skip(0) =~= listed@);
    while place < listed.len() && !listed[place].ts.is_before(&entry.ts)
        invariant
            place <= listed@.len(),
            listed@ == before,
            leading_not_earlier(before, entry.ts) == place + leading_not_earlier(
                before.skip(place as int),
                entry.ts,
            ),
        decreases listed.len() - place,
    {
        assert(before.skip(place as int).skip(1) =~= before.skip(place + 1));
        place = place + 1;
    }
    proof {
        lemma_with_entry(before, entry);
    }
    listed.insert(place, entry);
    if listed.len() > limit {
        let ghost longer = listed@;
        proof {
            lemma_without_oldest(longer);
        }
        let last: Timestamp = listed[listed.len() - 1].ts;
        let mut first: usize = 0;
        assert(longer.skip(0) =~= longer);
        while last.is_before(&listed[first].ts)
            invariant
                first < listed@.len(),
                listed@ == longer,
                last == longer.last().ts,
                leading_later(longer, last) == first + leading_later(longer.skip(first as int), last),
            decreases listed.len() - first,
        {
            assert(longer.skip(first as int).skip(1) =~= longer.skip(first + 1));
            first = first + 1;
        }
        listed.remove(first);
    }
}

/// One entry more, in what [`lists_newest`] says.
proof fn lemma_one_more(
    all: Seq<LedgerEntry>,
    limit: int,
    before: Seq<LedgerEntry>,
    older: Multiset<LedgerEntry>,
    entry: LedgerEntry,
    after: Seq<LedgerEntry>,
    dropped: Option<LedgerEntry>,
) -> (now_older: Multiset<LedgerEntry>)
    requires
        limit >= 0,
        lists_newest(all, limit, before, older),
        newest_first(after),
        dropped is None <==> before.len() < limit,
        match dropped {
            None => {
                &&& after.len() == before.len() + 1
                &&& after.to_multiset() == before.to_multiset().insert(entry)
            },
            Some(oldest) => {
                &&& after.len() == before.len()
                &&& after.to_multiset().insert(oldest) == before.to_multiset().insert(entry)
                &&& forall|i: int|
                    0 <= i < after.len() ==> !(#[trigger] after[i]).ts.earlier(oldest.ts)
            },
        },
    ensures
        lists_newest(all.push(entry), limit, after, now_older),
{
    broadcast use vstd::seq_lib::group_to_multiset_ensures;

    match dropped {
        None => {
            assert(all.to_multiset().len() == all.len());
            assert(before.to_multiset().len() == before.len());
            assert(before.to_multiset().add(older).len() == before.len() + older.len());
            assert(older =~= Multiset::empty());
            assert(after.to_multiset().add(older) =~= all.push(entry).to_multiset());
            older
        },
        Some(oldest) => {
            let now = older.insert(oldest);
            assert(after.to_multiset().add(now) =~= after.to_multiset().insert(oldest).add(older));
            assert(after.to_multiset().add(now) =~= all.push(entry).to_multiset());
            assert forall|e: LedgerEntry, i: int|
                #![trigger now.count(e), after[i]]
                now.count(e) > 0 && 0 <= i < after.len() implies !after[i].ts.earlier(e.ts) by {
                if e != oldest {
                    let x = after[i];
                    assert(older.count(e) > 0);
                    assert(after.contains(x));
                    assert(after.to_multiset().count(x) > 0);
                    if before.to_multiset().count(x) > 0 {
                        assert(before.contains(x));
                        let k = choose|k: int| 0 <= k < before.len() && before[k] == x;
                        assert(!before[k].ts.earlier(e.ts));
                    } else {
                        assert(before.to_multiset().insert(entry).count(x) > 0);
                        assert(x == entry);
                        assert(oldest != entry);
                        assert(before.to_multiset().insert(entry).count(oldest) > 0);
                        assert(before.contains(oldest));
                        let k = choose|k: int| 0 <= k < before.len() && before[k] == oldest;
                        assert(!before[k].ts.earlier(e.ts));
                    }
                }
            }
            now
        },
    }
}

/// What is listed are the newest entries, as many as the limit allows, newest
/// first; the others are no later than any of them.
pub proof fn law_newest_are_listed(all: Seq<LedgerEntry>, limit: int) -> (older: Multiset<LedgerEntry>)
    requires
        limit >= 0,
    ensures
        lists_newest(all, limit, newest_entries(all, limit), older),
    decreases all.len(),
{
    broadcast use vstd::seq_lib::group_to_multiset_ensures;

    if all.len() == 0 {
        let older = Multiset::<LedgerEntry>::empty();
        assert(all.to_multiset() =~= older);
        assert(newest_entries(all, limit) =~= all);
        assert(all.to_multiset().add(older) =~= all.to_multiset());
        older
    } else {
        let front = all.drop_last();
        let entry = all.last();
        let before = newest_entries(front, limit);
        let older = law_newest_are_listed(front, limit);
        lemma_with_entry(before, entry);
        let longer = with_entry(before, entry);
        assert(front.push(entry) =~= all);
        if longer.len() > limit {
            let oldest = lemma_without_oldest(longer);
            lemma_one_more(
                front,
                limit,
                before,
                older,
                entry,
                newest_entries(all, limit),
                Some(oldest),
            )
        } else {
            lemma_one_more(front, limit, before, older, entry, longer, None)
        }
    }
}

impl Ledger {
    /// Where the ledger file lies.
    pub closed spec fn file(self) -> ConfigPath {
        self.path
    }

    pub fn new(path: ConfigPath) -> (ledger: Ledger)
        ensures
            ledger.file() == path,
    {
        Ledger { path }
    }

    pub fn path(&self) -> (path: &ConfigPath)
        ensures
            *path == self.file(),
    {
        &self.path
    }

    /// What is added at the end of the file to record an entry, given the entry
    /// as JSON: a line of its own.
    pub fn append(&self, json: String) -> (line: String)
        ensures
            line@ == json@.push('\n'),
    {
        let mut line = json;
        push_char(&mut line, '\n');
        line
    }

    /// Reads entries filtered by an optional cutoff time, returning the most
    /// recent first, capped at `limit` (default 100). An entry in `parsed` for
    /// each line of the file, `None` for a malformed one, which is skipped.
    pub fn list(
        &self,
        parsed: Vec<Option<LedgerEntry>>,
        limit: Option<usize>,
        since: Option<Timestamp>,
    ) -> (entries: Vec<LedgerEntry>)
        ensures
            entries@ == newest_entries(wanted_entries(parsed@, since), limit_or_default(limit)),
            exists|older: Multiset<LedgerEntry>|
                lists_newest(
                    wanted_entries(parsed@, since),
                    limit_or_default(limit),
                    entries@,
                    older,
                ),
    {
        let most: usize = match limit {
            Some(n) => n,
            None => DEFAULT_LIMIT,
        };
        let mut entries: Vec<LedgerEntry> = Vec::new();
        assert(parsed@.take(0) =~= seq![]);
        for item in it: parsed.into_iter()
            invariant
                it.seq() == parsed@,
                entries@ == newest_entries(
                    wanted_entries(parsed@.take(it.index()), since),
                    most as int,
                ),
        {
            let ghost all = wanted_entries(parsed@.take(it.index()), since);
            assert(parsed@.take(it.index() + 1).drop_last() =~= parsed@.take(it.index()));
            if let Some(entry) = item {
                let wanted: bool = match since {
                    Some(cutoff) => !entry.ts.is_before(&cutoff),
                    None => true,
                };
                if wanted {
                    proof {
                        law_newest_are_listed(all, most as int);
                        assert(all.push(entry).drop_last() =~= all);
                    }
                    list_entry(&mut entries, entry, most);
                }
            }
        }
        assert(parsed@.take(parsed@.len() as int) =~= parsed@);
        proof {
            let all = wanted_entries(parsed@, since);
            let older = law_newest_are_listed(all, most as int);
            assert(lists_newest(all, limit_or_default(limit), entries@, older));
        }
        entries
    }
}

/// Whether `text` is empty or ends a line.
pub open spec fn ends_line(text: Seq<char>) -> bool {
    text.len() > 0 ==> text.last() == '\n'
}

/// Whether `json` can be a line of the ledger: it is not blank, and no line feed
/// stands in it.
pub open spec fn is_ledger_line(json: Seq<char>) -> bool {
    trimmed(json).len() > 0 && !json.contains('\n')
}

/// Text without a line feed lengthens the open line and nothing else.
proof fn lemma_open_line_grows(text: Seq<char>, more: Seq<char>)
    requires
        !more.contains('\n'),
    ensures
        closed_lines(text + more) == closed_lines(text),
        open_line(text + more) == open_line(text) + more,
    decreases more.len(),
{
    if more.len() == 0 {
        assert(text + more =~= text);
        assert(open_line(text) + more =~= open_line(text));
    } else {
        let front = more.drop_last();
        assert(more.contains(more.last()));
        assert(!front.contains('\n')) by {
            if front.contains('\n') {
                let k = choose|k: int| 0 <= k < front.len() && front[k] == '\n';
                assert(more[k] == '\n');
            }
        }
        lemma_open_line_grows(text, front);
        assert((text + more).drop_last() =~= text + front);
        assert(open_line(text) + more =~= (open_line(text) + front).push(more.last()));
    }
}

/// What was appended is read back: a line added at the end of a ledger becomes
/// its last line, and the lines before it stay as they were.
pub proof fn law_append_then_read(text: Seq<char>, json: Seq<char>)
    requires
        ends_line(text),
        is_ledger_line(json),
    ensures
        lines_of(text + json.push('\n')) == lines_of(text).push(trimmed(json)),
        ends_line(text + json.push('\n')),
{
    lemma_open_line_grows(text, json);
    let longer = text + json.push('\n');
    assert(longer.drop_last() =~= text + json);
    assert(open_line(text) =~= seq![]);
    assert(open_line(text) + json =~= json);
    assert(trimmed(Seq::<char>::empty()) =~= seq![]);
    assert(trimmed(open_line(longer)) =~= seq![]);
}

/// The text of a ledger file to which `entries` have been appended, one after the
/// other.
pub open spec fn ledger_text(entries: Seq<Seq<char>>) -> Seq<char>
    decreases entries.len(),
{
    if entries.len() == 0 {
        Seq::empty()
    } else {
        ledger_text(entries.drop_last()) + entries.last().push('\n')
    }
}

/// A ledger that was only ever appended to reads back every entry, in the order
/// in which they were appended.
pub proof fn law_ledger_reads_back(entries: Seq<Seq<char>>)
    requires
        forall|i: int| 0 <= i < entries.len() ==> is_ledger_line(#[trigger] entries[i]),
    ensures
        lines_of(ledger_text(entries)).len() == entries.len(),
        forall|i: int|
            0 <= i < entries.len() ==> #[trigger] lines_of(ledger_text(entries))[i] == trimmed(
                entries[i],
            ),
        ends_line(ledger_text(entries)),
    decreases entries.len(),
{
    if entries.len() == 0 {
        assert(trimmed(Seq::<char>::empty()) =~= seq![]);
    } else {
        let front = entries.drop_last();
        assert forall|i: int| 0 <= i < front.len() implies is_ledger_line(#[trigger] front[i]) by {
            assert(front[i] == entries[i]);
        }
        law_ledger_reads_back(front);
        law_append_then_read(ledger_text(front), entries.last());
    }
}

/// A JSON object is a line that reading leaves as it is.
pub proof fn law_object_lines_stay(json: Seq<char>)
    requires
        json.len() >= 2,
        json[0] == '{',
        json.last() == '}',
    ensures
        trimmed(json) == json,
{
    assert(!is_white_space('{'));
    assert(!is_white_space('}'));
}

/// Every entry that is wanted is one of those parsed.
proof fn lemma_wanted(parsed: Seq<Option<LedgerEntry>>, since: Option<Timestamp>)
    ensures
        forall|i: int|
            #![trigger wanted_entries(parsed, since)[i]]
            0 <= i < wanted_entries(parsed, since).len() ==> {
                &&& is_wanted(wanted_entries(parsed, since)[i], since)
                &&& parsed.contains(Some(wanted_entries(parsed, since)[i]))
            },
    decreases parsed.len(),
{
    if parsed.len() > 0 {
        let front = parsed.drop_last();
        lemma_wanted(front, since);
        assert forall|i: int|
            #![trigger wanted_entries(parsed, since)[i]]
            0 <= i < wanted_entries(parsed, since).len() implies {
            &&& is_wanted(wanted_entries(parsed, since)[i], since)
            &&& parsed.contains(Some(wanted_entries(parsed, since)[i]))
        } by {
            let entry = wanted_entries(parsed, since)[i];
            let before = wanted_entries(front, since);
            if i < before.len() {
                assert(entry == before[i]);
                let k = choose|k: int| 0 <= k < front.len() && front[k] == Some(entry);
                assert(parsed[k] == Some(entry));
            } else {
                assert(parsed[parsed.len() - 1] == Some(entry));
            }
        }
    }
}

/// Only entries of the file that are no earlier than the cutoff are listed, and
/// all of them where the limit allows it.
pub proof fn law_list_keeps_to_the_file(
    parsed: Seq<Option<LedgerEntry>>,
    limit: int,
    since: Option<Timestamp>,
    listed: Seq<LedgerEntry>,
)
    requires
        limit >= 0,
        listed == newest_entries(wanted_entries(parsed, since), limit),
    ensures
        forall|i: int|
            0 <= i < listed.len() ==> is_wanted(#[trigger] listed[i], since) && parsed.contains(
                Some(listed[i]),
            ),
        wanted_entries(parsed, since).len() <= limit ==> listed.to_multiset() == wanted_entries(
            parsed,
            since,
        ).to_multiset(),
{
    broadcast use vstd::seq_lib::group_to_multiset_ensures;

    let all = wanted_entries(parsed, since);
    let older = law_newest_are_listed(all, limit);
    lemma_wanted(parsed, since);
    assert forall|i: int| 0 <= i < listed.len() implies is_wanted(#[trigger] listed[i], since)
        && parsed.contains(Some(listed[i])) by {
        assert(listed.contains(listed[i]));
        assert(listed.to_multiset().count(listed[i]) > 0);
        assert(all.to_multiset().count(listed[i]) > 0);
        assert(all.contains(listed[i]));
    }
    if all.len() <= limit {
        assert(all.to_multiset().len() == all.len());
        assert(listed.to_multiset().add(older).len() == listed.len() + older.len());
        assert(older =~= Multiset::empty());
        assert(listed.to_multiset().add(older) =~= listed.to_multiset());
    }
}

/// The entries in a multiset that are no earlier than `ts`.
spec fn not_earlier(entries: Multiset<LedgerEntry>, ts: Timestamp) -> Multiset<LedgerEntry> {
    entries.filter(|entry: LedgerEntry| !entry.ts.earlier(ts))
}

/// In a list that is newest first, those no earlier than `ts` come first.
proof fn lemma_not_earlier_first(entries: Seq<LedgerEntry>, ts: Timestamp)
    requires
        newest_first(entries),
    ensures
        not_earlier(entries.to_multiset(), ts).len() <= entries.len(),
        forall|i: int|
            0 <= i < entries.len() ==> ((!(#[trigger] entries[i]).ts.earlier(ts)) <==> i
                < not_earlier(entries.to_multiset(), ts).len()),
    decreases entries.len(),
{
    broadcast use vstd::seq_lib::group_to_multiset_ensures;

    let counted = not_earlier(entries.to_multiset(), ts);
    if entries.len() == 0 {
        assert(entries.to_multiset() =~= Multiset::empty());
        assert(counted =~= Multiset::empty());
    } else {
        let front = entries.drop_last();
        let last = entries.last();
        assert forall|i: int, j: int| 0 <= i < j < front.len() implies !(
        #[trigger] front[i]).ts.earlier((#[trigger] front[j]).ts) by {
            assert(!entries[i].ts.earlier(entries[j].ts));
        }
        lemma_not_earlier_first(front, ts);
        assert(entries =~= front.push(last));
        let before = not_earlier(front.to_multiset(), ts);
        if last.ts.earlier(ts) {
            assert(counted =~= before);
        } else {
            assert(counted =~= before.insert(last));
            if front.len() > 0 {
                let k = front.len() - 1;
                assert(!entries[k].ts.earlier(entries[k + 1].ts));
                assert(front[k] == entries[k]);
            }
        }
        assert forall|i: int| 0 <= i < entries.len() implies ((!(
        #[trigger] entries[i]).ts.earlier(ts)) <==> i < counted.len()) by {
            if i < front.len() {
                assert(front[i] == entries[i]);
                assert(!entries[i].ts.earlier(entries[entries.len() - 1].ts));
            }
        }
    }
}

/// In a list of the newest entries, that one is no earlier than `ts` depends on
/// its place, and on how many of all entries are no earlier.
proof fn lemma_listed_not_earlier(
    all: Seq<LedgerEntry>,
    limit: int,
    listed: Seq<LedgerEntry>,
    older: Multiset<LedgerEntry>,
    ts: Timestamp,
    i: int,
)
    requires
        lists_newest(all, limit, listed, older),
        0 <= i < listed.len(),
    ensures
        !listed[i].ts.earlier(ts) <==> i < not_earlier(all.to_multiset(), ts).len(),
{
    lemma_not_earlier_first(listed, ts);
    let shown = not_earlier(listed.to_multiset(), ts);
    let hidden = not_earlier(older, ts);
    assert(not_earlier(all.to_multiset(), ts) =~= shown.add(hidden));
    if hidden.len() > 0 {
        let entry = hidden.choose();
        assert(hidden.count(entry) > 0);
        assert(older.count(entry) > 0);
        assert(!listed[i].ts.earlier(entry.ts));
    }
}

/// A smaller limit lists a prefix, by time stamps: the entries that it leaves out
/// are the oldest.
pub proof fn law_smaller_limit_lists_a_prefix(
    all: Seq<LedgerEntry>,
    small: int,
    large: int,
    shorter: Seq<LedgerEntry>,
    longer: Seq<LedgerEntry>,
)
    requires
        0 <= small <= large,
        shorter == newest_entries(all, small),
        longer == newest_entries(all, large),
    ensures
        shorter.len() == if longer.len() <= small {
            longer.len() as int
        } else {
            small
        },
        forall|i: int|
            0 <= i < shorter.len() ==> (#[trigger] shorter[i]).ts == (#[trigger] longer[i]).ts,
{
    let older = law_newest_are_listed(all, small);
    let oldest = law_newest_are_listed(all, large);
    assert forall|i: int| 0 <= i < shorter.len() implies (#[trigger] shorter[i]).ts == (
    #[trigger] longer[i]).ts by {
        let a = shorter[i].ts;
        let b = longer[i].ts;
        lemma_listed_not_earlier(all, small, shorter, older, a, i);
        lemma_listed_not_earlier(all, large, longer, oldest, a, i);
        lemma_listed_not_earlier(all, small, shorter, older, b, i);
        lemma_listed_not_earlier(all, large, longer, oldest, b, i);
    }
}

/// Without a limit a hundred entries are listed.
pub proof fn law_no_limit_is_a_hundred()
    ensures
        limit_or_default(None) == limit_or_default(Some(100)),
{
}

/// A line that could not be parsed hides nothing: it leaves the wanted entries as
/// they are, wherever it stands.
pub proof fn law_malformed_lines_hide_nothing(
    before: Seq<Option<LedgerEntry>>,
    after: Seq<Option<LedgerEntry>>,
    since: Option<Timestamp>,
)
    ensures
        wanted_entries(before.push(None) + after, since) == wanted_entries(before + after, since),
    decreases after.len(),
{
    let with = before.push(None) + after;
    let without = before + after;
    if after.len() == 0 {
        assert(with.drop_last() =~= before);
        assert(without =~= before);
    } else {
        law_malformed_lines_hide_nothing(before, after.drop_last(), since);
        assert(with.drop_last() =~= before.push(None) + after.drop_last());
        assert(without.drop_last() =~= before + after.drop_last());
    }
}

/// The lines of `text` as they stand: those that end in a line feed, and what
/// follows the last of them.
pub open spec fn raw_lines(text: Seq<char>) -> Seq<Seq<char>> {
    closed_raw_lines(text).push(open_line(text))
}

/// The lines of `text` that end in a line feed, as they stand.
pub open spec fn closed_raw_lines(text: Seq<char>) -> Seq<Seq<char>>
    decreases text.len(),
{
    if text.len() == 0 {
        Seq::empty()
    } else if text.last() == '\n' {
        closed_raw_lines(text.drop_last()).push(open_line(text.drop_last()))
    } else {
        closed_raw_lines(text.drop_last())
    }
}

/// Those of `lines` that hold an entry, trimmed: blank ones, and those that `parse`
/// cannot read, are left out.
pub open spec fn entry_lines(
    lines: Seq<Seq<char>>,
    parse: spec_fn(Seq<char>) -> Option<LedgerEntry>,
) -> Seq<Seq<char>>
    decreases lines.len(),
{
    if lines.len() == 0 {
        Seq::empty()
    } else {
        let before = entry_lines(lines.drop_last(), parse);
        let line = trimmed(lines.last());
        if line.len() > 0 && parse(line) is Some {
            before.push(line)
        } else {
            before
        }
    }
}

/// What a file holds, where `parse` reads its lines.
pub open spec fn parsed_file(
    text: Seq<char>,
    parse: spec_fn(Seq<char>) -> Option<LedgerEntry>,
) -> Seq<Option<LedgerEntry>> {
    lines_of(text).map_values(parse)
}

/// `lines`, trimmed, without the blank ones.
spec fn shown_lines(lines: Seq<Seq<char>>) -> Seq<Seq<char>>
    decreases lines.len(),
{
    if lines.len() == 0 {
        Seq::empty()
    } else {
        with_line(shown_lines(lines.drop_last()), lines.last())
    }
}

/// The closed lines are the closed raw lines, trimmed, without the blank ones.
proof fn lemma_closed_lines(text: Seq<char>)
    ensures
        closed_lines(text) == shown_lines(closed_raw_lines(text)),
    decreases text.len(),
{
    if text.len() > 0 {
        let front = text.drop_last();
        lemma_closed_lines(front);
        if text.last() == '\n' {
            assert(closed_raw_lines(text).drop_last() =~= closed_raw_lines(front));
        }
    }
}

/// Only the lines that hold an entry count for the entries that are wanted.
proof fn lemma_entry_lines(
    lines: Seq<Seq<char>>,
    parse: spec_fn(Seq<char>) -> Option<LedgerEntry>,
    since: Option<Timestamp>,
)
    ensures
        wanted_entries(shown_lines(lines).map_values(parse), since) == wanted_entries(
            entry_lines(lines, parse).map_values(parse),
            since,
        ),
    decreases lines.len(),
{
    if lines.len() == 0 {
        assert(shown_lines(lines) =~= entry_lines(lines, parse));
    } else {
        let front = lines.drop_last();
        lemma_entry_lines(front, parse, since);
        let line = trimmed(lines.last());
        let shown = shown_lines(front).map_values(parse);
        let held = entry_lines(front, parse).map_values(parse);
        if line.len() > 0 {
            assert(shown_lines(lines).map_values(parse) =~= shown.push(parse(line)));
            assert(shown.push(parse(line)).drop_last() =~= shown);
            if parse(line) is Some {
                assert(entry_lines(lines, parse).map_values(parse) =~= held.push(parse(line)));
                assert(held.push(parse(line)).drop_last() =~= held);
            }
        }
    }
}

/// Blank and malformed lines, and space around lines, count for nothing: two files
/// that hold the same entries list the same, whatever else stands in them.
pub proof fn law_skipped_lines_leave_the_list(
    a: Seq<char>,
    b: Seq<char>,
    parse: spec_fn(Seq<char>) -> Option<LedgerEntry>,
    limit: int,
    since: Option<Timestamp>,
)
    requires
        entry_lines(raw_lines(a), parse) == entry_lines(raw_lines(b), parse),
    ensures
        wanted_entries(parsed_file(a, parse), since) == wanted_entries(parsed_file(b, parse), since),
        newest_entries(wanted_entries(parsed_file(a, parse), since), limit) == newest_entries(
            wanted_entries(parsed_file(b, parse), since),
            limit,
        ),
{
    lemma_closed_lines(a);
    lemma_closed_lines(b);
    assert(raw_lines(a).drop_last() =~= closed_raw_lines(a));
    assert(raw_lines(b).drop_last() =~= closed_raw_lines(b));
    lemma_entry_lines(raw_lines(a), parse, since);
    lemma_entry_lines(raw_lines(b), parse, since);
}

/// Two texts that follow texts with the same closed lines, both at the start of a
/// line, make the same lines.
proof fn lemma_same_lines_after(a: Seq<char>, b: Seq<char>, more: Seq<char>)
    requires
        closed_lines(a) == closed_lines(b),
        open_line(a) == open_line(b),
    ensures
        closed_lines(a + more) == closed_lines(b + more),
        open_line(a + more) == open_line(b + more),
    decreases more.len(),
{
    if more.len() == 0 {
        assert(a + more =~= a);
        assert(b + more =~= b);
    } else {
        let front = more.drop_last();
        lemma_same_lines_after(a, b, front);
        assert((a + more).drop_last() =~= a + front);
        assert((b + more).drop_last() =~= b + front);
    }
}

/// A blank line counts for nothing, wherever it stands.
pub proof fn law_blank_lines_hide_nothing(before: Seq<char>, blank: Seq<char>, after: Seq<char>)
    requires
        ends_line(before),
        trimmed(blank).len() == 0,
        !blank.contains('\n'),
    ensures
        lines_of(before + blank.push('\n') + after) == lines_of(before + after),
{
    lemma_open_line_grows(before, blank);
    let longer = before + blank.push('\n');
    assert(longer.drop_last() =~= before + blank);
    assert(open_line(before) =~= seq![]);
    assert(open_line(before) + blank =~= blank);
    lemma_same_lines_after(longer, before, after);
}

/// What was appended is listed: with room under the limit, the list after an entry
/// was appended to the file is the former list and that entry, at its place.
pub proof fn law_append_then_list(
    text: Seq<char>,
    json: Seq<char>,
    entry: LedgerEntry,
    parse: spec_fn(Seq<char>) -> Option<LedgerEntry>,
    limit: int,
    since: Option<Timestamp>,
    before: Seq<LedgerEntry>,
    after: Seq<LedgerEntry>,
)
    requires
        ends_line(text),
        is_ledger_line(json),
        parse(trimmed(json)) == Some(entry),
        is_wanted(entry, since),
        before == newest_entries(wanted_entries(parsed_file(text, parse), since), limit),
        before.len() < limit,
        after == newest_entries(
            wanted_entries(parsed_file(text + json.push('\n'), parse), since),
            limit,
        ),
    ensures
        after == with_entry(before, entry),
        after.len() == before.len() + 1,
        after.to_multiset() == before.to_multiset().insert(entry),
        after.contains(entry),
        newest_first(after),
{
    law_append_then_read(text, json);
    let held = parsed_file(text, parse);
    let now = parsed_file(text + json.push('\n'), parse);
    assert(now =~= held.push(Some(entry)));
    assert(now.drop_last() =~= held);
    let all = wanted_entries(held, since);
    assert(all.push(entry).drop_last() =~= all);
    law_newest_are_listed(all, limit);
    lemma_with_entry(before, entry);
}

/// The number of entries that are listed at most.
pub open spec fn limit_or_default(limit: Option<usize>) -> int {
    match limit {
        Some(n) => n as int,
        None => DEFAULT_LIMIT as int,
    }
}

/// Moments are ordered by their seconds and then by their nanoseconds.
pub proof fn law_moments_are_ordered(a: Timestamp, b: Timestamp)
    ensures
        a.earlier(b) <==> a.secs * 0x1_0000_0000 + a.nanos < b.secs * 0x1_0000_0000 + b.nanos,
{
}

/// Whether an entry is wanted depends on its time stamp alone: without a cutoff every
/// entry that was parsed is wanted, and with one every entry whose time stamp is not
/// before it, as often as it was parsed; and nothing else is.
pub proof fn law_wanted_by_time_alone(
    parsed: Seq<Option<LedgerEntry>>,
    since: Option<Timestamp>,
    entry: LedgerEntry,
)
    ensures
        since is None ==> wanted_entries(parsed, since).to_multiset().count(entry)
            == parsed.to_multiset().count(Some(entry)),
        since matches Some(cutoff) ==> wanted_entries(parsed, since).to_multiset().count(entry) == (
        if cutoff.secs < entry.ts.secs || (cutoff.secs == entry.ts.secs && cutoff.nanos
            <= entry.ts.nanos) {
            parsed.to_multiset().count(Some(entry))
        } else {
            0
        }),
    decreases parsed.len(),
{
    broadcast use vstd::seq_lib::group_to_multiset_ensures;

    let wanted = wanted_entries(parsed, since);
    if parsed.len() == 0 {
        assert(wanted.to_multiset() =~= Multiset::empty());
        assert(parsed.to_multiset() =~= Multiset::empty());
    } else {
        let front = parsed.drop_last();
        law_wanted_by_time_alone(front, since, entry);
        assert(parsed =~= front.push(parsed.last()));
    }
}

/// What is listed: as many entries as the limit and the entries in time allow; in the
/// order of their time stamps, the newest first; each as often as it was parsed, or
/// less often where the list is full and every entry in it is at least as new; and
/// none that was not parsed or is before the cutoff.
pub proof fn law_list_holds_the_newest(
    parsed: Seq<Option<LedgerEntry>>,
    limit: int,
    since: Option<Timestamp>,
    listed: Seq<LedgerEntry>,
    entry: LedgerEntry,
)
    requires
        limit >= 0,
        listed == newest_entries(wanted_entries(parsed, since), limit),
    ensures
        listed.len() <= limit,
        forall|i: int, j: int|
            0 <= i < j < listed.len() ==> (#[trigger] listed[i]).ts.secs > (
            #[trigger] listed[j]).ts.secs || (listed[i].ts.secs == listed[j].ts.secs
                && listed[i].ts.nanos >= listed[j].ts.nanos),
        listed.to_multiset().count(entry) <= parsed.to_multiset().count(Some(entry)),
        listed.to_multiset().count(entry) > 0 ==> (since matches Some(cutoff) ==> cutoff.secs
            < entry.ts.secs || (cutoff.secs == entry.ts.secs && cutoff.nanos <= entry.ts.nanos)),
        (since matches Some(cutoff) ==> cutoff.secs < entry.ts.secs || (cutoff.secs
            == entry.ts.secs && cutoff.nanos <= entry.ts.nanos))
            && listed.to_multiset().count(entry) < parsed.to_multiset().count(Some(entry)) ==> {
            &&& listed.len() == limit
            &&& forall|i: int|
                0 <= i < listed.len() ==> (#[trigger] listed[i]).ts.secs > entry.ts.secs || (
                listed[i].ts.secs == entry.ts.secs && listed[i].ts.nanos >= entry.ts.nanos)
        },
{
    broadcast use vstd::seq_lib::group_to_multiset_ensures;

    let all = wanted_entries(parsed, since);
    let older = law_newest_are_listed(all, limit);
    law_wanted_by_time_alone(parsed, since, entry);
    assert(all.to_multiset().count(entry) == listed.to_multiset().count(entry) + older.count(entry));
    assert(all.to_multiset().len() == all.len());
    assert(listed.to_multiset().add(older).len() == listed.len() + older.len());
    if older.count(entry) > 0 {
        assert(older.len() > 0) by {
            if older.len() == 0 {
                assert(older =~= Multiset::empty());
            }
        }
    }
}

/// A limit counts as it stands, and without one a hundred entries are listed.
pub proof fn law_limit_counts_as_it_stands(limit: Option<usize>)
    ensures
        limit matches Some(n) ==> limit_or_default(limit) == n,
        limit is None ==> limit_or_default(limit) == 100,
{
}

/// Reading goes line by line: a further line, with or without a line feed behind it,
/// is read in addition to what stands before it, trimmed, if any character in it is
/// no white space, and is passed over otherwise. An empty file has no lines.
pub proof fn law_files_are_read_line_by_line(text: Seq<char>, line: Seq<char>)
    requires
        text.len() > 0 ==> text.last() == '\n',
        forall|k: int| 0 <= k < line.len() ==> (#[trigger] line[k]) != '\n',
    ensures
        lines_of(Seq::<char>::empty()).len() == 0,
        (exists|k: int| 0 <= k < line.len() && !is_white_space(#[trigger] line[k])) ==> lines_of(
            text + line.push('\n'),
        ) == lines_of(text).push(trimmed(line)) && lines_of(text + line) == lines_of(text).push(
            trimmed(line),
        ),
        (forall|k: int| 0 <= k < line.len() ==> is_white_space(#[trigger] line[k])) ==> lines_of(
            text + line.push('\n'),
        ) == lines_of(text) && lines_of(text + line) == lines_of(text),
{
    assert(trimmed(Seq::<char>::empty()) =~= seq![]);
    assert(!line.contains('\n'));
    lemma_open_line_grows(text, line);
    let closed = text + line.push('\n');
    assert(closed.drop_last() =~= text + line);
    assert(open_line(text) =~= seq![]);
    assert(open_line(text) + line =~= line);
    assert(trimmed(open_line(closed)) =~= seq![]);
    let (start, end) = law_trimming_takes_off_white_space(line);
    if exists|k: int| 0 <= k < line.len() && !is_white_space(#[trigger] line[k]) {
        let k = choose|k: int| 0 <= k < line.len() && !is_white_space(#[trigger] line[k]);
        assert(start <= k < end);
        assert(trimmed(line).len() > 0);
    }
    if forall|k: int| 0 <= k < line.len() ==> is_white_space(#[trigger] line[k]) {
        if start < end {
            assert(is_white_space(line[start]));
        }
        assert(trimmed(line).len() == 0);
    }
}

} // verus!
