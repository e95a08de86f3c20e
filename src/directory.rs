//! The summary and the flat listing of a directory.
use crate::line_numbers::{decimal, to_decimal};
use crate::paint::{paint, painted, Color};
use crate::tree::Entry;
use vstd::multiset::Multiset;
use vstd::prelude::*;

verus! {

/// `a` comes no later than `b` in lexicographic order of characters.
pub open spec fn lex_le(a: Seq<char>, b: Seq<char>) -> bool
    decreases a.len(),
{
    if a.len() == 0 {
        true
    } else if b.len() == 0 {
        false
    } else if a[0] != b[0] {
        a[0] < b[0]
    } else {
        lex_le(a.drop_first(), b.drop_first())
    }
}

/// Each entry's name comes no later than the next one's.
pub open spec fn sorted_by_name(entries: Seq<Entry>) -> bool {
    forall|i: int| 0 <= i < entries.len() - 1 ==> lex_le(#[trigger] entries[i].name@, entries[i + 1].name@)
}

pub proof fn lemma_lex_total(a: Seq<char>, b: Seq<char>)
    ensures
        lex_le(a, b) || lex_le(b, a),
    decreases a.len(),
{
    if a.len() > 0 && b.len() > 0 && a[0] == b[0] {
        lemma_lex_total(a.drop_first(), b.drop_first());
    }
}

/// Whether `a` comes no later than `b` in lexicographic order.
pub fn name_le(a: &String, b: &String) -> (r: bool)
    ensures
        r == lex_le(a@, b@),
{
    let n = a.as_str().unicode_len();
    let m = b.as_str().unicode_len();
    let mut i: usize = 0;
    assert(a@.skip(0) =~= a@);
    assert(b@.skip(0) =~= b@);
    while i < n && i < m
        invariant
            n == a@.len(),
            m == b@.len(),
            i <= n,
            i <= m,
            lex_le(a@, b@) == lex_le(a@.skip(i as int), b@.skip(i as int)),
        decreases n - i,
    {
        let x = a.as_str().get_char(i);
        let y = b.as_str().get_char(i);
        assert(a@.skip(i as int)[0] == x && b@.skip(i as int)[0] == y);
        if x != y {
            return x < y;
        }
        assert(a@.skip(i as int).drop_first() =~= a@.skip(i + 1));
        assert(b@.skip(i as int).drop_first() =~= b@.skip(i + 1));
        i = i + 1;
    }
    i == n
}

/// The entries sorted by name, in lexicographic order.
pub fn sort_by_name(entries: Vec<Entry>) -> (r: Vec<Entry>)
    ensures
        r@.to_multiset() == entries@.to_multiset(),
        sorted_by_name(r@),
{
    broadcast use vstd::seq_lib::group_to_multiset_ensures;

    let mut input = entries;
    let mut out: Vec<Entry> = Vec::new();
    while input.len() > 0
        invariant
            out@.to_multiset().add(input@.to_multiset()) == entries@.to_multiset(),
            sorted_by_name(out@),
        decreases input.len(),
    {
        let ghost before = input@;
        let ghost before_out = out@;
        let x = input.pop().unwrap();
        assert(before =~= input@.push(x));
        proof {
            input@.to_multiset_ensures();
        }
        assert(input@.push(x).to_multiset() =~= input@.to_multiset().insert(x));
        assert(before.to_multiset() == input@.to_multiset().insert(x));
        let mut k: usize = 0;
        while k < out.len() && name_le(&out[k].name, &x.name)
            invariant
                k <= out@.len(),
                forall|j: int| 0 <= j < k ==> lex_le(#[trigger] out@[j].name@, x.name@),
            decreases out.len() - k,
        {
            k = k + 1;
        }
        proof {
            if k < out@.len() {
                lemma_lex_total(out@[k as int].name@, x.name@);
            }
        }
        let ghost old_out = out@;
        out.insert(k, x);
        proof {
            vstd::seq_lib::to_multiset_insert(old_out, k as int, x);
            assert(out@.to_multiset() =~= old_out.to_multiset().insert(x));
            assert(out@.to_multiset().add(input@.to_multiset()) =~= old_out.to_multiset().add(
                before.to_multiset(),
            ));
            assert forall|i: int| 0 <= i < out@.len() - 1 implies lex_le(
                #[trigger] out@[i].name@,
                out@[i + 1].name@,
            ) by {
                if i + 1 < k {
                    assert(out@[i] == old_out[i] && out@[i + 1] == old_out[i + 1]);
                } else if i + 1 == k {
                    assert(out@[i] == old_out[i]);
                } else if i == k {
                    assert(out@[i + 1] == old_out[i]);
                } else {
                    assert(out@[i] == old_out[i - 1] && out@[i + 1] == old_out[i]);
                }
            }
        }
    }
    assert(input@.to_multiset() =~= Multiset::empty());
    assert(out@.to_multiset().add(Multiset::empty()) =~= out@.to_multiset());
    out
}

/// What a directory entry is, as the filesystem reports it without following
/// symbolic links.
#[derive(Clone, Copy, Debug, PartialEq, Eq, Structural)]
pub enum EntryKind {
    Directory,
    File,
    Other,
}

/// The number of `kinds` equal to `k`.
pub open spec fn count_kind(kinds: Seq<EntryKind>, k: EntryKind) -> nat
    decreases kinds.len(),
{
    if kinds.len() == 0 {
        0
    } else {
        count_kind(kinds.drop_last(), k) + if kinds.last() == k {
            1nat
        } else {
            0nat
        }
    }
}

/// The counts of a directory's entries.
pub struct Stats {
    pub entries: usize,
    pub directories: usize,
    pub files: usize,
}

/// `n` and the noun, singular for one and plural otherwise.
pub open spec fn counted(n: nat, one: Seq<char>, many: Seq<char>) -> Seq<char> {
    decimal(n) + seq![' '] + if n == 1 {
        one
    } else {
        many
    }
}

/// The summary line of the counts, without a newline.
pub open spec fn stats_text(entries: nat, directories: nat, files: nat) -> Seq<char> {
    counted(entries, "entry"@, "entries"@) + ", "@ + counted(directories, "directory"@, "directories"@)
        + ", "@ + counted(files, "file"@, "files"@)
}

proof fn lemma_count_kind_bound(kinds: Seq<EntryKind>, k: EntryKind)
    ensures
        count_kind(kinds, k) <= kinds.len(),
    decreases kinds.len(),
{
    if kinds.len() > 0 {
        lemma_count_kind_bound(kinds.drop_last(), k);
    }
}

/// Counts the entries, the directories and the files among `kinds`.
pub fn get_stats(kinds: &Vec<EntryKind>) -> (r: Stats)
    ensures
        r.entries == kinds@.len(),
        r.directories == count_kind(kinds@, EntryKind::Directory),
        r.files == count_kind(kinds@, EntryKind::File),
{
    let mut stats = Stats { entries: 0, directories: 0, files: 0 };
    let mut i: usize = 0;
    while i < kinds.len()
        invariant
            i <= kinds@.len(),
            stats.entries == i,
            stats.directories == count_kind(kinds@.take(i as int), EntryKind::Directory),
            stats.files == count_kind(kinds@.take(i as int), EntryKind::File),
        decreases kinds.len() - i,
    {
        proof {
            lemma_count_kind_bound(kinds@.take(i as int), EntryKind::Directory);
            lemma_count_kind_bound(kinds@.take(i as int), EntryKind::File);
        }
        assert(kinds@.take(i + 1).drop_last() =~= kinds@.take(i as int));
        stats.entries = stats.entries + 1;
        match kinds[i] {
            EntryKind::Directory => stats.directories = stats.directories + 1,
            EntryKind::File => stats.files = stats.files + 1,
            EntryKind::Other => {},
        }
        i = i + 1;
    }
    assert(kinds@.take(i as int) =~= kinds@);
    stats
}

fn push_counted(text: &mut String, n: usize, one: &str, many: &str)
    ensures
        final(text)@ == old(text)@ + counted(n as nat, one@, many@),
{
    let number = to_decimal(n);
    text.push_str(number.as_str());
    text.push(' ');
    if n == 1 {
        text.push_str(one);
    } else {
        text.push_str(many);
    }
    assert(final(text)@ =~= old(text)@ + counted(n as nat, one@, many@));
}

impl Stats {
    /// The summary line, such as `2 entries, 1 directory, 1 file`.
    pub fn to_string(&self) -> (r: String)
        ensures
            r@ == stats_text(self.entries as nat, self.directories as nat, self.files as nat),
    {
        let mut text = String::new();
        push_counted(&mut text, self.entries, "entry", "entries");
        text.push_str(", ");
        push_counted(&mut text, self.directories, "directory", "directories");
        text.push_str(", ");
        push_counted(&mut text, self.files, "file", "files");
        assert(text@ =~= stats_text(self.entries as nat, self.directories as nat, self.files as nat));
        text
    }
}

/// `out` is the listing line of `e`: the name and a newline, a directory's
/// name painted blue and followed by a slash.
pub open spec fn listed(out: Seq<char>, e: Entry) -> bool {
    if e.is_dir {
        out.len() >= 2 && out == out.take(out.len() - 2) + seq!['/', '\n'] && painted(
            out.take(out.len() - 2),
            e.name@,
            Color::Blue,
        )
    } else {
        out == e.name@ + seq!['\n']
    }
}

/// One line for each of `children`, in their order.
pub fn file_listing(children: &Vec<Entry>) -> (r: Vec<String>)
    ensures
        r@.len() == children@.len(),
        forall|i: int| 0 <= i < r@.len() ==> listed((#[trigger] r@[i])@, children@[i]),
{
    let mut out: Vec<String> = Vec::new();
    let mut i: usize = 0;
    while i < children.len()
        invariant
            i <= children@.len(),
            out@.len() == i,
            forall|j: int| 0 <= j < i ==> listed((#[trigger] out@[j])@, children@[j]),
        decreases children.len() - i,
    {
        let child = &children[i];
        let line = if child.is_dir {
            let mut text = paint(child.name.as_str(), Color::Blue);
            let ghost p = text@;
            text.push('/');
            text.push('\n');
            assert(text@.take(text@.len() - 2) =~= p);
            assert(text@ =~= p + seq!['/', '\n']);
            text
        } else {
            let mut text = String::new();
            text.push_str(child.name.as_str());
            text.push('\n');
            assert(text@ =~= child.name@ + seq!['\n']);
            text
        };
        out.push(line);
        i = i + 1;
    }
    out
}

} // verus!
