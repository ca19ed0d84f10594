use crate::path::FsPath;
use vstd::prelude::*;

verus! {

/// One remembered cursor target: the entry to highlight on coming back to
/// `dir_path`.
pub struct Location {
    pub dir_path: FsPath,
    pub item: String,
}

impl View for Location {
    type V = (Seq<Seq<char>>, Seq<char>);

    open spec fn view(&self) -> (Seq<Seq<char>>, Seq<char>) {
        (self.dir_path@, self.item@)
    }
}

impl Location {
    pub fn new(dir_path: FsPath, item: String) -> (r: Location)
        ensures
            r@ == (dir_path@, item@),
    {
        Location { dir_path, item }
    }
}

pub open spec fn ledger_view(h: Seq<Location>) -> Seq<(Seq<Seq<char>>, Seq<char>)> {
    h.map_values(|l: Location| l@)
}

/// Index of the entry for `dir` in a ledger, or -1 when there is none.
pub open spec fn ledger_find(h: Seq<(Seq<Seq<char>>, Seq<char>)>, dir: Seq<Seq<char>>) -> int
    decreases h.len(),
{
    if h.len() == 0 {
        -1
    } else if h[0].0 == dir {
        0
    } else {
        let r = ledger_find(h.drop_first(), dir);
        if r < 0 {
            -1
        } else {
            r + 1
        }
    }
}

/// The item remembered for `dir`.
pub open spec fn ledger_lookup(h: Seq<(Seq<Seq<char>>, Seq<char>)>, dir: Seq<Seq<char>>) -> Option<
    Seq<char>,
> {
    let i = ledger_find(h, dir);
    if i >= 0 {
        Some(h[i].1)
    } else {
        None
    }
}

/// The ledger after remembering `item` for `dir`: the entry for `dir` is
/// overwritten when there is one, else a new entry is appended.
pub open spec fn ledger_record(
    h: Seq<(Seq<Seq<char>>, Seq<char>)>,
    dir: Seq<Seq<char>>,
    item: Seq<char>,
) -> Seq<(Seq<Seq<char>>, Seq<char>)> {
    let i = ledger_find(h, dir);
    if i >= 0 {
        h.update(i, (dir, item))
    } else {
        h.push((dir, item))
    }
}

pub proof fn lemma_ledger_find(h: Seq<(Seq<Seq<char>>, Seq<char>)>, dir: Seq<Seq<char>>)
    ensures
        -1 <= ledger_find(h, dir) < h.len(),
        ledger_find(h, dir) >= 0 ==> h[ledger_find(h, dir)].0 == dir,
        forall|j: int| 0 <= j < h.len() && (ledger_find(h, dir) < 0 || j < ledger_find(h, dir))
            ==> #[trigger] h[j].0 != dir,
    decreases h.len(),
{
    if h.len() > 0 && h[0].0 != dir {
        lemma_ledger_find(h.drop_first(), dir);
        assert forall|j: int| 0 <= j < h.len() && (ledger_find(h, dir) < 0 || j < ledger_find(h, dir))
            implies #[trigger] h[j].0 != dir by {
            if j > 0 {
                assert(h[j] == h.drop_first()[j - 1]);
            }
        }
    }
}

/// Remembered cursor target for `dir`: the position of its entry.
fn find_location(history: &Vec<Location>, dir: &FsPath) -> (r: Option<usize>)
    ensures
        r is Some <==> ledger_find(ledger_view(history@), dir@) >= 0,
        r is Some ==> r->0 == ledger_find(ledger_view(history@), dir@) && r->0 < history@.len(),
{
    let mut i: usize = 0;
    while i < history.len()
        invariant
            i <= history.len(),
            forall|j: int| 0 <= j < i ==> #[trigger] history@[j].dir_path@ != dir@,
        decreases history.len() - i,
    {
        if history[i].dir_path.same_as(dir) {
            proof {
                let h = ledger_view(history@);
                lemma_ledger_find(h, dir@);
                let f = ledger_find(h, dir@);
                assert(h[i as int].0 == dir@);
                if f < 0 || f > i {
                    assert(h[i as int].0 != dir@);
                }
                if f < i {
                    assert(history@[f].dir_path@ != dir@);
                    assert(h[f].0 == history@[f].dir_path@);
                }
            }
            return Some(i);
        }
        i = i + 1;
    }
    proof {
        let h = ledger_view(history@);
        lemma_ledger_find(h, dir@);
        let f = ledger_find(h, dir@);
        if f >= 0 {
            assert(history@[f].dir_path@ != dir@);
            assert(h[f].0 == history@[f].dir_path@);
        }
    }
    None
}

/// History Ledger: remembers `item` as the cursor target of `dir`,
/// overwriting what was remembered for it.
pub fn record(history: &mut Vec<Location>, dir: &FsPath, item: String)
    ensures
        ledger_view(final(history)@) == ledger_record(ledger_view(old(history)@), dir@, item@),
{
    proof {
        lemma_ledger_find(ledger_view(history@), dir@);
    }
    match find_location(history, dir) {
        Some(i) => {
            let loc = Location::new(dir.duplicate(), item);
            history.set(i, loc);
            assert(ledger_view(history@) =~= ledger_record(
                ledger_view(old(history)@),
                dir@,
                loc@.1,
            ));
        },
        None => {
            let loc = Location::new(dir.duplicate(), item);
            history.push(loc);
            assert(ledger_view(history@) =~= ledger_record(
                ledger_view(old(history)@),
                dir@,
                loc@.1,
            ));
        },
    }
}

/// History Ledger: the item remembered for `dir`, if any.
pub fn lookup(history: &Vec<Location>, dir: &FsPath) -> (r: Option<String>)
    ensures
        r is Some <==> ledger_lookup(ledger_view(history@), dir@) is Some,
        r is Some ==> r->0@ == ledger_lookup(ledger_view(history@), dir@)->0,
{
    match find_location(history, dir) {
        Some(i) => Some(history[i].item.clone()),
        None => None,
    }
}

/// Remembering `x` and then `y` for one directory leaves `y` as what is
/// remembered for it, in the one entry that the first call made or found.
pub proof fn lemma_record_overwrites(
    h: Seq<(Seq<Seq<char>>, Seq<char>)>,
    dir: Seq<Seq<char>>,
    x: Seq<char>,
    y: Seq<char>,
)
    ensures
        ledger_lookup(ledger_record(ledger_record(h, dir, x), dir, y), dir) == Some(y),
        ledger_record(ledger_record(h, dir, x), dir, y).len() == ledger_record(h, dir, x).len(),
{
    let h1 = ledger_record(h, dir, x);
    lemma_ledger_find(h, dir);
    lemma_ledger_find(h1, dir);
    let h2 = ledger_record(h1, dir, y);
    lemma_ledger_find(h2, dir);
    assert(ledger_find(h1, dir) >= 0) by {
        if ledger_find(h, dir) >= 0 {
            assert(h1[ledger_find(h, dir)].0 == dir);
        } else {
            assert(h1[h.len() as int].0 == dir);
        }
    }
    let f1 = ledger_find(h1, dir);
    let f2 = ledger_find(h2, dir);
    assert(h2[f1].0 == dir);
    if f2 < 0 || f2 > f1 {
        assert(h2[f1].0 != dir);
    }
    if 0 <= f2 < f1 {
        assert(h2[f2] == h1[f2]);
        assert(h1[f2].0 != dir);
    }
}

} // verus!
