use crate::path::{first_index, join_path, keep_piece, lemma_first_index, texts_of, pieces, push_pieces, FsPath};
use crate::listing::{entries_view, EntryInfo};
use crate::selection::{entry_views, SelectedEntry, Selection};
use crate::state::{is_dir_name, AppInstance, SummaryAction};
use vstd::prelude::*;

verus! {

/// How often `c` occurs in `s`.
pub open spec fn count_char(s: Seq<char>, c: char) -> nat
    decreases s.len(),
{
    if s.len() == 0 {
        0
    } else {
        count_char(s.drop_last(), c) + if s.last() == c {
            1nat
        } else {
            0nat
        }
    }
}

/// The first pair of quotes in `s`: the positions of the opening and the
/// closing one.
pub open spec fn quote_pair(s: Seq<char>) -> Option<(int, int)> {
    let a = first_index(s, '"');
    let b = a + 1 + first_index(s.subrange(a + 1, s.len() as int), '"');
    if 0 <= a < b < s.len() {
        Some((a, b))
    } else {
        None
    }
}

/// The quoted tokens of a create line, in the order in which they are
/// taken out: each time the first pair of quotes, with what they enclose.
pub open spec fn quoted_items(s: Seq<char>) -> Seq<Seq<char>>
    decreases s.len(),
{
    match quote_pair(s) {
        Some((a, b)) => if 0 <= a < b < s.len() {
            seq![s.subrange(a + 1, b)] + quoted_items(
                s.subrange(0, a) + s.subrange(b + 1, s.len() as int),
            )
        } else {
            Seq::empty()
        },
        None => Seq::empty(),
    }
}

/// What is left of a create line once every quoted token was taken out.
pub open spec fn unquoted(s: Seq<char>) -> Seq<char>
    decreases s.len(),
{
    match quote_pair(s) {
        Some((a, b)) => if 0 <= a < b < s.len() {
            unquoted(s.subrange(0, a) + s.subrange(b + 1, s.len() as int))
        } else {
            s
        },
        None => s,
    }
}

/// The tokens of a create line: the quoted ones, then the words between
/// spaces of the rest.
pub open spec fn line_items(s: Seq<char>) -> Seq<Seq<char>> {
    quoted_items(s) + pieces(unquoted(s), ' ', false)
}

pub open spec fn copy_prefix() -> Seq<char> {
    seq!['c', 'o', 'p', 'y', '_']
}

/// Where Copy puts `item` of `src_dir` when pasting into `dest`: under its
/// own name, or under a `copy_` name when that would be the source itself.
pub open spec fn copy_target(src_dir: Seq<Seq<char>>, item: Seq<char>, dest: Seq<Seq<char>>) -> Seq<
    Seq<char>,
> {
    if join_path(src_dir, item) == join_path(dest, item) {
        join_path(dest, copy_prefix() + item)
    } else {
        join_path(dest, item)
    }
}

/// Position of the first `c` in `s` from `from` on, or the length of `s`.
fn index_of_char(s: &str, c: char, from: usize) -> (r: usize)
    requires
        from <= s@.len(),
    ensures
        r == from + first_index(s@.subrange(from as int, s@.len() as int), c),
        from <= r <= s@.len(),
{
    let n = s.unicode_len();
    let mut i = from;
    while i < n && s.get_char(i) != c
        invariant
            n == s@.len(),
            from <= i <= n,
            forall|j: int| from <= j < i ==> s@[j] != c,
        decreases n - i,
    {
        i = i + 1;
    }
    proof {
        lemma_first_index(s@.subrange(from as int, n as int), c, i - from);
    }
    i
}

/// Whether the quotes of a line are paired; a line with an odd number of
/// them is still being typed.
pub fn quotes_balanced(line: &str) -> (r: bool)
    ensures
        r == (count_char(line@, '"') % 2 == 0),
{
    let n = line.unicode_len();
    let mut even = true;
    let mut i: usize = 0;
    while i < n
        invariant
            n == line@.len(),
            i <= n,
            even == (count_char(line@.subrange(0, i as int), '"') % 2 == 0),
        decreases n - i,
    {
        assert(line@.subrange(0, i + 1).drop_last() =~= line@.subrange(0, i as int));
        if line.get_char(i) == '"' {
            even = !even;
        }
        i = i + 1;
    }
    assert(line@.subrange(0, n as int) =~= line@);
    even
}

/// Splits a create line into tokens. Text between a pair of quotes is one
/// token, spaces included; the quoted tokens come first, in the order of
/// their pairs, then the words between spaces of what is left.
pub fn split_items(items_cmd: String) -> (r: Vec<String>)
    ensures
        texts_of(r@) == line_items(items_cmd@),
{
    let mut items: Vec<String> = Vec::new();
    let mut rest = items_cmd;
    assert(texts_of(items@) =~= Seq::<Seq<char>>::empty());
    loop
        invariant
            texts_of(items@) + quoted_items(rest@) == quoted_items(items_cmd@),
            unquoted(rest@) == unquoted(items_cmd@),
        ensures
            texts_of(items@) + quoted_items(rest@) == quoted_items(items_cmd@),
            unquoted(rest@) == unquoted(items_cmd@),
            quote_pair(rest@) is None,
        decreases rest@.len(),
    {
        let n = rest.unicode_len();
        let a = index_of_char(rest.as_str(), '"', 0);
        proof {
            assert(rest@.subrange(0, n as int) =~= rest@);
        }
        if a >= n {
            break;
        }
        let b = index_of_char(rest.as_str(), '"', a + 1);
        if b >= n {
            break;
        }
        let ghost s = rest@;
        proof {
            assert(quote_pair(s) == Some((a as int, b as int)));
        }
        let item = String::from_str(rest.as_str().substring_char(a + 1, b));
        let before = String::from_str(rest.as_str().substring_char(0, a));
        let after = rest.as_str().substring_char(b + 1, n);
        let next = before.concat(after);
        let ghost prev = texts_of(items@);
        items.push(item);
        proof {
            assert(texts_of(items@) =~= prev.push(s.subrange(a + 1, b as int)));
            assert(prev + quoted_items(s) =~= prev.push(s.subrange(a + 1, b as int))
                + quoted_items(next@));
        }
        rest = next;
    }
    let ghost prev = texts_of(items@);
    push_pieces(&mut items, rest.as_str(), ' ', false);
    proof {
        assert(quoted_items(rest@) =~= Seq::<Seq<char>>::empty());
        assert(unquoted(rest@) == rest@);
        assert(prev + Seq::<Seq<char>>::empty() =~= prev);
    }
    items
}

/// One item that a create line asks for: a directory (its token ends with
/// `/`) or an empty file.
pub struct CreateItem {
    pub path: FsPath,
    pub dir: bool,
}

/// The items that a create line asks for in directory `cwd`; `None` while
/// its quotes are not paired (the line is still being typed).
pub fn create_items(cwd: &FsPath, items_cmd: String) -> (r: Option<Vec<CreateItem>>)
    ensures
        r is None <==> count_char(items_cmd@, '"') % 2 != 0,
        r is Some ==> r->0@.len() == line_items(items_cmd@).len() && forall|k: int|
            0 <= k < r->0@.len() ==> (#[trigger] r->0@[k]).path@ == join_path(
                cwd@,
                line_items(items_cmd@)[k],
            ) && r->0@[k].dir == is_dir_name(line_items(items_cmd@)[k]),
{
    if !quotes_balanced(items_cmd.as_str()) {
        return None;
    }
    let ghost line = items_cmd@;
    let tokens = split_items(items_cmd);
    let mut out: Vec<CreateItem> = Vec::new();
    let mut i: usize = 0;
    while i < tokens.len()
        invariant
            i <= tokens.len(),
            texts_of(tokens@) == line_items(line),
            out@.len() == i,
            forall|k: int|
                0 <= k < i ==> (#[trigger] out@[k]).path@ == join_path(cwd@, line_items(line)[k])
                    && out@[k].dir == is_dir_name(line_items(line)[k]),
        decreases tokens.len() - i,
    {
        let t = tokens[i].as_str();
        assert(t@ == line_items(line)[i as int]);
        out.push(CreateItem { path: cwd.join(t), dir: crate::state::is_dir_item(t) });
        i = i + 1;
    }
    Some(out)
}

/// What Create does for one item.
pub enum CreateStep {
    /// Something exists at the path already: it is left as it is.
    Skip,
    /// Create the directory and every missing directory above it.
    MakeDirAll,
    /// Create an empty file, after the missing directories above it when
    /// `make_parent` holds.
    MakeFile { make_parent: bool },
}

/// Create's decision for one item, given what the filesystem holds: an
/// existing file, directory or symlink at the path is never overwritten.
pub fn create_step(dir: bool, exists: bool, parent_is_dir: bool) -> (r: CreateStep)
    ensures
        exists ==> r == CreateStep::Skip,
        !exists && dir ==> r == CreateStep::MakeDirAll,
        !exists && !dir ==> r == (CreateStep::MakeFile { make_parent: !parent_is_dir }),
{
    if exists {
        CreateStep::Skip
    } else if dir {
        CreateStep::MakeDirAll
    } else {
        CreateStep::MakeFile { make_parent: !parent_is_dir }
    }
}

/// The rename guard: a rename goes ahead only when the source exists and
/// nothing, file or directory, exists at the target. This is stricter than
/// refusing only a target of the source's own kind: a file never replaces
/// a directory, nor a directory a file.
pub fn rename_allowed(
    source_is_file: bool,
    source_is_dir: bool,
    target_is_file: bool,
    target_is_dir: bool,
) -> (r: bool)
    ensures
        r == ((source_is_file || source_is_dir) && !target_is_file && !target_is_dir),
        source_is_file && target_is_file ==> !r,
        source_is_dir && target_is_dir ==> !r,
{
    (source_is_file || source_is_dir) && !target_is_file && !target_is_dir
}

/// One move or copy of a path to another.
pub struct Transfer {
    pub source: FsPath,
    pub target: FsPath,
}

impl View for Transfer {
    type V = (Seq<Seq<char>>, Seq<Seq<char>>);

    open spec fn view(&self) -> (Seq<Seq<char>>, Seq<Seq<char>>) {
        (self.source@, self.target@)
    }
}

pub open spec fn transfer_views(s: Seq<Transfer>) -> Seq<(Seq<Seq<char>>, Seq<Seq<char>>)> {
    s.map_values(|t: Transfer| t@)
}

/// Where Copy puts `item` of `src_dir` when pasting into `dest`.
pub fn copy_destination(src_dir: &FsPath, item: &String, dest: &FsPath) -> (r: FsPath)
    ensures
        r@ == copy_target(src_dir@, item@, dest@),
{
    let source = src_dir.join(item.as_str());
    let target = dest.join(item.as_str());
    if source.same_as(&target) {
        proof {
            reveal_strlit("copy_");
        }
        let name = String::from_str("copy_").concat(item.as_str());
        assert(name@ =~= copy_prefix() + item@);
        dest.join(name.as_str())
    } else {
        target
    }
}

/// Copy: for each selected entry, the copy to make in `dest`.
pub fn copy_plan(entries: &Vec<SelectedEntry>, dest: &FsPath) -> (r: Vec<Transfer>)
    ensures
        transfer_views(r@) == entry_views(entries@).map_values(
            |e: (Seq<Seq<char>>, Seq<char>)|
                (join_path(e.0, e.1), copy_target(e.0, e.1, dest@)),
        ),
{
    let mut out: Vec<Transfer> = Vec::new();
    let mut i: usize = 0;
    while i < entries.len()
        invariant
            i <= entries.len(),
            transfer_views(out@) == entry_views(entries@).take(i as int).map_values(
                |e: (Seq<Seq<char>>, Seq<char>)|
                    (join_path(e.0, e.1), copy_target(e.0, e.1, dest@)),
            ),
        decreases entries.len() - i,
    {
        let e = &entries[i];
        let t = Transfer {
            source: e.dir.join(e.item.as_str()),
            target: copy_destination(&e.dir, &e.item, dest),
        };
        let ghost tv = t@;
        let ghost prev = out@;
        out.push(t);
        assert(transfer_views(out@) =~= transfer_views(prev).push(tv));
        assert(entry_views(entries@).take(i + 1) =~= entry_views(entries@).take(i as int).push(
            e@,
        ));
        assert(transfer_views(out@) =~= entry_views(entries@).take(i + 1).map_values(
            |e: (Seq<Seq<char>>, Seq<char>)|
                (join_path(e.0, e.1), copy_target(e.0, e.1, dest@)),
        ));
        i = i + 1;
    }
    assert(entry_views(entries@).take(entries.len() as int) =~= entry_views(entries@));
    out
}

/// Move: for each selected entry, the rename into `dest` under its name.
pub fn move_plan(entries: &Vec<SelectedEntry>, dest: &FsPath) -> (r: Vec<Transfer>)
    ensures
        transfer_views(r@) == entry_views(entries@).map_values(
            |e: (Seq<Seq<char>>, Seq<char>)| (join_path(e.0, e.1), join_path(dest@, e.1)),
        ),
{
    let mut out: Vec<Transfer> = Vec::new();
    let mut i: usize = 0;
    while i < entries.len()
        invariant
            i <= entries.len(),
            transfer_views(out@) == entry_views(entries@).take(i as int).map_values(
                |e: (Seq<Seq<char>>, Seq<char>)| (join_path(e.0, e.1), join_path(dest@, e.1)),
            ),
        decreases entries.len() - i,
    {
        let e = &entries[i];
        let t = Transfer { source: e.dir.join(e.item.as_str()), target: dest.join(e.item.as_str()) };
        let ghost tv = t@;
        let ghost prev = out@;
        out.push(t);
        assert(transfer_views(out@) =~= transfer_views(prev).push(tv));
        assert(entry_views(entries@).take(i + 1) =~= entry_views(entries@).take(i as int).push(
            e@,
        ));
        assert(transfer_views(out@) =~= entry_views(entries@).take(i + 1).map_values(
            |e: (Seq<Seq<char>>, Seq<char>)| (join_path(e.0, e.1), join_path(dest@, e.1)),
        ));
        i = i + 1;
    }
    assert(entry_views(entries@).take(entries.len() as int) =~= entry_views(entries@));
    out
}

/// Delete (batch): the path of each selected entry.
pub fn delete_plan(entries: &Vec<SelectedEntry>) -> (r: Vec<FsPath>)
    ensures
        r@.len() == entries@.len(),
        forall|k: int|
            0 <= k < r@.len() ==> (#[trigger] r@[k])@ == join_path(entries@[k].dir@, entries@[k].item@),
{
    let mut out: Vec<FsPath> = Vec::new();
    let mut i: usize = 0;
    while i < entries.len()
        invariant
            i <= entries.len(),
            out@.len() == i,
            forall|k: int|
                0 <= k < i ==> (#[trigger] out@[k])@ == join_path(entries@[k].dir@, entries@[k].item@),
        decreases entries.len() - i,
    {
        out.push(entries[i].dir.join(entries[i].item.as_str()));
        i = i + 1;
    }
    out
}

/// Ends a batch operation run from `instance`: the selection is cleared
/// (also when some items failed: the failures are reported, not kept for
/// another try), the selection summary is hidden, and the listing is made
/// again from `entries`, the children of the current directory read after
/// the operation.
pub fn finish_batch(
    selection: &mut Selection,
    instance: &mut AppInstance,
    entries: &Vec<EntryInfo>,
) -> (r: SummaryAction)
    ensures
        final(selection).wf(),
        final(selection)@ == Map::<Seq<Seq<char>>, Set<Seq<char>>>::empty(),
        r == SummaryAction::Hide(old(instance).selection_popup),
        final(instance).selection_popup is None,
        final(instance).wf(),
        final(instance).listed@ == entries_view(entries@),
        final(instance).cwd == old(instance).cwd,
        final(instance).history == old(instance).history,
        final(instance).show_hidden == old(instance).show_hidden,
        final(instance).buf == old(instance).buf,
{
    selection.clear();
    let r = instance.summary_action(0);
    instance.set_buffer_content(entries);
    r
}

/// A name without `/` (and not `.`) is a single path component.
proof fn lemma_single_component(s: Seq<char>)
    requires
        forall|j: int| 0 <= j < s.len() ==> s[j] != '/',
        keep_piece(s, true),
    ensures
        pieces(s, '/', true) == seq![s],
{
    lemma_first_index(s, '/', s.len() as int);
    assert(s.subrange(0, s.len() as int) =~= s);
    assert(seq![s] + Seq::<Seq<char>>::empty() =~= seq![s]);
}

/// Copying the entry `f` of directory `d` into `d` itself makes `d/copy_f`,
/// a path other than `d/f`.
pub proof fn lemma_copy_in_place(d: Seq<Seq<char>>, f: Seq<char>)
    requires
        f.len() > 0,
        forall|j: int| 0 <= j < f.len() ==> f[j] != '/',
    ensures
        copy_target(d, f, d) == d.push(copy_prefix() + f),
        copy_target(d, f, d) != join_path(d, f),
{
    let c = copy_prefix() + f;
    assert(c.len() > 1);
    assert(c != seq!['.']);
    assert forall|j: int| 0 <= j < c.len() implies c[j] != '/' by {
        if j >= 5 {
            assert(c[j] == f[j - 5]);
        }
    }
    lemma_single_component(c);
    assert(d + seq![c] =~= d.push(c));
    if f != seq!['.'] {
        lemma_single_component(f);
        assert(d + seq![f] =~= d.push(f));
        assert(c.len() != f.len());
        assert(d.push(c).last() != d.push(f).last());
    } else {
        assert(join_path(d, f) == d + pieces(f, '/', true));
        assert(pieces(f, '/', true) =~= Seq::<Seq<char>>::empty()) by {
            lemma_first_index(f, '/', 1);
            assert(f.subrange(0, 1) =~= f);
        }
        assert(d + Seq::<Seq<char>>::empty() =~= d);
        assert(d.push(c).len() != d.len());
    }
}

} // verus!
