use crate::path::{copy_parts, texts_of, FsPath};
use vstd::prelude::*;

verus! {

/// The entries selected in one directory.
pub struct SelectedDir {
    pub dir: FsPath,
    pub items: Vec<String>,
}

pub open spec fn group_items(g: SelectedDir) -> Set<Seq<char>> {
    texts_of(g.items@).to_set()
}

/// Selection model: each directory with a selection, and the names selected
/// in it.
#[verifier::opaque]
pub open spec fn groups_view(gs: Seq<SelectedDir>) -> Map<Seq<Seq<char>>, Set<Seq<char>>> {
    Map::new(
        |d: Seq<Seq<char>>| exists|i: int| 0 <= i < gs.len() && #[trigger] gs[i].dir@ == d,
        |d: Seq<Seq<char>>|
            group_items(gs[choose|i: int| 0 <= i < gs.len() && #[trigger] gs[i].dir@ == d]),
    )
}

/// One group per directory, none empty, no name twice in a group.
pub open spec fn groups_wf(gs: Seq<SelectedDir>) -> bool {
    &&& forall|i: int, j: int|
        0 <= i < j < gs.len() ==> #[trigger] gs[i].dir@ != #[trigger] gs[j].dir@
    &&& forall|i: int| 0 <= i < gs.len() ==> #[trigger] gs[i].items@.len() > 0
    &&& forall|i: int| 0 <= i < gs.len() ==> texts_of(#[trigger] gs[i].items@).no_duplicates()
}

/// Number of selected names, group by group.
pub open spec fn groups_total(gs: Seq<SelectedDir>) -> nat
    decreases gs.len(),
{
    if gs.len() == 0 {
        0
    } else {
        groups_total(gs.drop_last()) + gs.last().items@.len()
    }
}

/// The selection after toggling `item` in `dir`: it leaves when it was
/// selected (and the directory with it, once nothing else is selected
/// there), else it joins.
pub open spec fn toggled(
    s: Map<Seq<Seq<char>>, Set<Seq<char>>>,
    dir: Seq<Seq<char>>,
    item: Seq<char>,
) -> Map<Seq<Seq<char>>, Set<Seq<char>>> {
    let cur = if s.contains_key(dir) {
        s[dir]
    } else {
        Set::empty()
    };
    if cur.contains(item) {
        if cur.remove(item) == Set::<Seq<char>>::empty() {
            s.remove(dir)
        } else {
            s.insert(dir, cur.remove(item))
        }
    } else {
        s.insert(dir, cur.insert(item))
    }
}

/// Whether `item` is selected in `dir`.
pub open spec fn selected(
    s: Map<Seq<Seq<char>>, Set<Seq<char>>>,
    dir: Seq<Seq<char>>,
    item: Seq<char>,
) -> bool {
    s.contains_key(dir) && s[dir].contains(item)
}

/// A selection model in which no directory has an empty set.
pub open spec fn no_empty_sets(s: Map<Seq<Seq<char>>, Set<Seq<char>>>) -> bool {
    forall|d: Seq<Seq<char>>| #[trigger] s.contains_key(d) ==> s[d] != Set::<Seq<char>>::empty()
}

/// The model gives each listed directory the names of its group.
proof fn lemma_groups_view_at(gs: Seq<SelectedDir>, i: int)
    requires
        groups_wf(gs),
        0 <= i < gs.len(),
    ensures
        groups_view(gs).contains_key(gs[i].dir@),
        groups_view(gs)[gs[i].dir@] == group_items(gs[i]),
{
    reveal(groups_view);
    let d = gs[i].dir@;
    assert(exists|k: int| 0 <= k < gs.len() && #[trigger] gs[k].dir@ == d);
    let k = choose|k: int| 0 <= k < gs.len() && #[trigger] gs[k].dir@ == d;
    if k != i {
        if k < i {
            assert(gs[k].dir@ != gs[i].dir@);
        } else {
            assert(gs[i].dir@ != gs[k].dir@);
        }
    }
}

/// A directory without a group is not in the model.
proof fn lemma_groups_view_absent(gs: Seq<SelectedDir>, d: Seq<Seq<char>>)
    requires
        forall|i: int| 0 <= i < gs.len() ==> #[trigger] gs[i].dir@ != d,
    ensures
        !groups_view(gs).contains_key(d),
{
    reveal(groups_view);
}

/// No directory of the model has an empty set.
proof fn lemma_no_empty_sets(gs: Seq<SelectedDir>)
    requires
        groups_wf(gs),
    ensures
        no_empty_sets(groups_view(gs)),
{
    reveal(groups_view);
    assert forall|d: Seq<Seq<char>>| #[trigger] groups_view(gs).contains_key(d) implies groups_view(
        gs,
    )[d] != Set::<Seq<char>>::empty() by {
        let i = choose|i: int| 0 <= i < gs.len() && #[trigger] gs[i].dir@ == d;
        lemma_groups_view_at(gs, i);
        assert(group_items(gs[i]).contains(texts_of(gs[i].items@)[0]));
    }
}

/// Two well-formed group lists that agree on every directory but `d` give
/// models that agree away from `d`.
proof fn lemma_groups_view_agree(a: Seq<SelectedDir>, b: Seq<SelectedDir>, d: Seq<Seq<char>>)
    requires
        groups_wf(a),
        groups_wf(b),
        forall|i: int|
            0 <= i < a.len() && #[trigger] a[i].dir@ != d ==> exists|j: int|
                0 <= j < b.len() && #[trigger] b[j].dir@ == a[i].dir@ && group_items(b[j])
                    == group_items(a[i]),
        forall|j: int|
            0 <= j < b.len() && #[trigger] b[j].dir@ != d ==> exists|i: int|
                0 <= i < a.len() && #[trigger] a[i].dir@ == b[j].dir@,
    ensures
        groups_view(a).remove(d) == groups_view(b).remove(d),
{
    reveal(groups_view);
    let va = groups_view(a);
    let vb = groups_view(b);
    assert forall|k: Seq<Seq<char>>| k != d implies (#[trigger] va.contains_key(k)
        == vb.contains_key(k)) && (va.contains_key(k) ==> va[k] == vb[k]) by {
        if va.contains_key(k) {
            let i = choose|i: int| 0 <= i < a.len() && #[trigger] a[i].dir@ == k;
            lemma_groups_view_at(a, i);
            let j = choose|j: int|
                0 <= j < b.len() && #[trigger] b[j].dir@ == a[i].dir@ && group_items(b[j])
                    == group_items(a[i]);
            lemma_groups_view_at(b, j);
        }
        if vb.contains_key(k) {
            let j = choose|j: int| 0 <= j < b.len() && #[trigger] b[j].dir@ == k;
            let i = choose|i: int| 0 <= i < a.len() && #[trigger] a[i].dir@ == b[j].dir@;
            lemma_groups_view_at(a, i);
        }
    }
    assert(va.remove(d) =~= vb.remove(d));
}

/// Removing a name from a list without repeats removes it from its set.
proof fn lemma_to_set_remove(s: Seq<Seq<char>>, j: int)
    requires
        s.no_duplicates(),
        0 <= j < s.len(),
    ensures
        s.remove(j).to_set() == s.to_set().remove(s[j]),
        s.remove(j).no_duplicates(),
{
    let r = s.remove(j);
    assert forall|x: Seq<char>| #[trigger] r.to_set().contains(x) == s.to_set().remove(
        s[j],
    ).contains(x) by {
        if r.contains(x) {
            let k = choose|k: int| 0 <= k < r.len() && r[k] == x;
            if k < j {
                assert(s[k] == x);
            } else {
                assert(s[k + 1] == x);
            }
        }
        if s.contains(x) && x != s[j] {
            let k = choose|k: int| 0 <= k < s.len() && s[k] == x;
            if k < j {
                assert(r[k] == x);
            } else {
                assert(r[k - 1] == x);
            }
        }
    }
    assert(r.to_set() =~= s.to_set().remove(s[j]));
}

/// Position of `item` among `items`.
fn find_item(items: &Vec<String>, item: &String) -> (r: Option<usize>)
    ensures
        r is Some ==> r->0 < items@.len() && items@[r->0 as int]@ == item@,
        r is None ==> !texts_of(items@).contains(item@),
{
    let mut i: usize = 0;
    while i < items.len()
        invariant
            i <= items.len(),
            forall|j: int| 0 <= j < i ==> #[trigger] items@[j]@ != item@,
        decreases items.len() - i,
    {
        if items[i] == *item {
            return Some(i);
        }
        i = i + 1;
    }
    proof {
        if texts_of(items@).contains(item@) {
            let k = choose|k: int| 0 <= k < items@.len() && texts_of(items@)[k] == item@;
            assert(items@[k]@ != item@);
        }
    }
    None
}

/// One selected entry: a name in a directory.
pub struct SelectedEntry {
    pub dir: FsPath,
    pub item: String,
}

impl View for SelectedEntry {
    type V = (Seq<Seq<char>>, Seq<char>);

    open spec fn view(&self) -> (Seq<Seq<char>>, Seq<char>) {
        (self.dir@, self.item@)
    }
}

pub open spec fn entry_views(s: Seq<SelectedEntry>) -> Seq<(Seq<Seq<char>>, Seq<char>)> {
    s.map_values(|e: SelectedEntry| e@)
}

pub open spec fn group_pairs(g: SelectedDir) -> Seq<(Seq<Seq<char>>, Seq<char>)> {
    texts_of(g.items@).map_values(|f: Seq<char>| (g.dir@, f))
}

/// Every selected entry, group by group.
pub open spec fn selection_pairs(gs: Seq<SelectedDir>) -> Seq<(Seq<Seq<char>>, Seq<char>)>
    decreases gs.len(),
{
    if gs.len() == 0 {
        Seq::empty()
    } else {
        selection_pairs(gs.drop_last()) + group_pairs(gs.last())
    }
}

/// With no empty group, the total is zero exactly when there is no group.
proof fn lemma_total_zero(gs: Seq<SelectedDir>)
    requires
        forall|i: int| 0 <= i < gs.len() ==> #[trigger] gs[i].items@.len() > 0,
    ensures
        (groups_total(gs) == 0) == (gs.len() == 0),
    decreases gs.len(),
{
    if gs.len() > 0 {
        let init = gs.drop_last();
        assert forall|i: int| 0 <= i < init.len() implies #[trigger] init[i].items@.len() > 0 by {
            assert(init[i] == gs[i]);
        }
        lemma_total_zero(init);
        assert(gs.last().items@.len() > 0);
    }
}

/// The listed pairs are exactly the selected ones.
proof fn lemma_pairs_selected(gs: Seq<SelectedDir>, d: Seq<Seq<char>>, f: Seq<char>)
    requires
        groups_wf(gs),
    ensures
        selection_pairs(gs).contains((d, f)) == selected(groups_view(gs), d, f),
    decreases gs.len(),
{
    if gs.len() == 0 {
        reveal(groups_view);
        assert(!selection_pairs(gs).contains((d, f)));
    } else {
        let init = gs.drop_last();
        let last = gs.len() - 1;
        let g = gs[last];
        assert forall|i: int, j: int| 0 <= i < j < init.len() implies #[trigger] init[i].dir@
            != #[trigger] init[j].dir@ by {
            assert(gs[i].dir@ != gs[j].dir@);
        }
        assert forall|i: int| 0 <= i < init.len() implies #[trigger] init[i].items@.len() > 0 by {
            assert(init[i] == gs[i]);
        }
        assert forall|i: int| 0 <= i < init.len() implies texts_of(
            #[trigger] init[i].items@,
        ).no_duplicates() by {
            assert(init[i] == gs[i]);
        }
        lemma_pairs_selected(init, d, f);
        let gp = group_pairs(g);
        assert(gp.contains((d, f)) == (d == g.dir@ && group_items(g).contains(f))) by {
            if gp.contains((d, f)) {
                let k = choose|k: int| 0 <= k < gp.len() && gp[k] == (d, f);
                assert(texts_of(g.items@)[k] == f);
            }
            if d == g.dir@ && group_items(g).contains(f) {
                let k = choose|k: int|
                    0 <= k < texts_of(g.items@).len() && texts_of(g.items@)[k] == f;
                assert(gp[k] == (d, f));
            }
        }
        assert(selection_pairs(gs).contains((d, f)) == (selection_pairs(init).contains((d, f))
            || gp.contains((d, f)))) by {
            let sp = selection_pairs(init);
            assert(selection_pairs(gs) == sp + gp);
            if (sp + gp).contains((d, f)) {
                let k = choose|k: int| 0 <= k < (sp + gp).len() && (sp + gp)[k] == (d, f);
                if k < sp.len() {
                    assert(sp[k] == (d, f));
                } else {
                    assert(gp[k - sp.len()] == (d, f));
                }
            }
            if sp.contains((d, f)) {
                let k = choose|k: int| 0 <= k < sp.len() && sp[k] == (d, f);
                assert((sp + gp)[k] == (d, f));
            }
            if gp.contains((d, f)) {
                let k = choose|k: int| 0 <= k < gp.len() && gp[k] == (d, f);
                assert((sp + gp)[sp.len() + k] == (d, f));
            }
        }
        lemma_groups_view_at(gs, last);
        if d == g.dir@ {
            assert forall|i: int| 0 <= i < init.len() implies #[trigger] init[i].dir@ != d by {
                assert(gs[i].dir@ != gs[last].dir@);
            }
            lemma_groups_view_absent(init, d);
        } else {
            assert forall|i: int| 0 <= i < init.len() && #[trigger] init[i].dir@ != g.dir@ implies exists|
                j: int,
            |
                0 <= j < gs.len() && #[trigger] gs[j].dir@ == init[i].dir@ && group_items(gs[j])
                    == group_items(init[i]) by {
                assert(gs[i] == init[i]);
            }
            assert forall|j: int| 0 <= j < gs.len() && #[trigger] gs[j].dir@ != g.dir@ implies exists|
                i: int,
            | 0 <= i < init.len() && #[trigger] init[i].dir@ == gs[j].dir@ by {
                assert(j != last);
                assert(init[j] == gs[j]);
            }
            lemma_groups_view_agree(init, gs, g.dir@);
            assert(groups_view(init).remove(g.dir@).contains_key(d) == groups_view(
                init,
            ).contains_key(d));
            assert(groups_view(gs).remove(g.dir@).contains_key(d) == groups_view(gs).contains_key(
                d,
            ));
            if groups_view(gs).contains_key(d) {
                assert(groups_view(init).remove(g.dir@)[d] == groups_view(init)[d]);
                assert(groups_view(gs).remove(g.dir@)[d] == groups_view(gs)[d]);
            }
        }
    }
}

/// Selection Set: for each directory, the names of the entries selected in
/// it; shared by all sessions.
pub struct Selection {
    pub groups: Vec<SelectedDir>,
}

impl View for Selection {
    type V = Map<Seq<Seq<char>>, Set<Seq<char>>>;

    open spec fn view(&self) -> Map<Seq<Seq<char>>, Set<Seq<char>>> {
        groups_view(self.groups@)
    }
}

impl Selection {
    pub open spec fn wf(&self) -> bool {
        groups_wf(self.groups@)
    }

    /// An empty selection.
    pub fn new() -> (r: Selection)
        ensures
            r.wf(),
            r@ == Map::<Seq<Seq<char>>, Set<Seq<char>>>::empty(),
    {
        let r = Selection { groups: Vec::new() };
        assert(r@ =~= Map::<Seq<Seq<char>>, Set<Seq<char>>>::empty()) by {
            reveal(groups_view);
        }
        r
    }

    /// Position of the group of `dir`.
    fn find_group(&self, dir: &FsPath) -> (r: Option<usize>)
        ensures
            r is Some ==> r->0 < self.groups@.len() && self.groups@[r->0 as int].dir@ == dir@,
            r is None ==> forall|i: int|
                0 <= i < self.groups@.len() ==> #[trigger] self.groups@[i].dir@ != dir@,
    {
        let mut i: usize = 0;
        while i < self.groups.len()
            invariant
                i <= self.groups.len(),
                forall|j: int| 0 <= j < i ==> #[trigger] self.groups@[j].dir@ != dir@,
            decreases self.groups.len() - i,
        {
            if self.groups[i].dir.same_as(dir) {
                return Some(i);
            }
            i = i + 1;
        }
        None
    }

    /// Drops the group at `i`, and with it its directory.
    fn remove_group(&mut self, i: usize)
        requires
            old(self).wf(),
            i < old(self).groups@.len(),
        ensures
            final(self).wf(),
            final(self)@ == old(self)@.remove(old(self).groups@[i as int].dir@),
    {
        let ghost gs = self.groups@;
        let ghost d = gs[i as int].dir@;
        self.groups.remove(i);
        proof {
            let ng = self.groups@;
            assert forall|a: int| 0 <= a < ng.len() implies #[trigger] ng[a].dir@ != d by {
                if a < i {
                    assert(ng[a] == gs[a]);
                    assert(gs[a].dir@ != gs[i as int].dir@);
                } else {
                    assert(ng[a] == gs[a + 1]);
                    assert(gs[i as int].dir@ != gs[a + 1].dir@);
                }
            }
            assert forall|a: int, b: int| 0 <= a < b < ng.len() implies #[trigger] ng[a].dir@
                != #[trigger] ng[b].dir@ by {
                if b < i {
                    assert(gs[a].dir@ != gs[b].dir@);
                } else if a < i {
                    assert(gs[a].dir@ != gs[b + 1].dir@);
                } else {
                    assert(gs[a + 1].dir@ != gs[b + 1].dir@);
                }
            }
            assert forall|a: int| 0 <= a < ng.len() implies #[trigger] ng[a].items@.len() > 0 by {
                if a < i {
                    assert(ng[a] == gs[a]);
                } else {
                    assert(ng[a] == gs[a + 1]);
                }
            }
            assert forall|a: int| 0 <= a < ng.len() implies texts_of(
                #[trigger] ng[a].items@,
            ).no_duplicates() by {
                if a < i {
                    assert(ng[a] == gs[a]);
                } else {
                    assert(ng[a] == gs[a + 1]);
                }
            }
            assert forall|a: int| 0 <= a < gs.len() && #[trigger] gs[a].dir@ != d implies exists|
                b: int,
            |
                0 <= b < ng.len() && #[trigger] ng[b].dir@ == gs[a].dir@ && group_items(ng[b])
                    == group_items(gs[a]) by {
                if a < i {
                    assert(ng[a] == gs[a]);
                } else {
                    assert(ng[a - 1] == gs[a]);
                }
            }
            assert forall|b: int| 0 <= b < ng.len() && #[trigger] ng[b].dir@ != d implies exists|
                a: int,
            | 0 <= a < gs.len() && #[trigger] gs[a].dir@ == ng[b].dir@ by {
                if b < i {
                    assert(ng[b] == gs[b]);
                } else {
                    assert(ng[b] == gs[b + 1]);
                }
            }
            lemma_groups_view_agree(gs, ng, d);
            lemma_groups_view_absent(ng, d);
            assert(self@ =~= groups_view(gs).remove(d)) by {
                assert(groups_view(gs).remove(d) =~= self@.remove(d));
            }
        }
    }

    /// Puts `g` in place of the group of the same directory at `i`.
    fn replace_group(&mut self, i: usize, g: SelectedDir)
        requires
            old(self).wf(),
            i < old(self).groups@.len(),
            g.dir@ == old(self).groups@[i as int].dir@,
            g.items@.len() > 0,
            texts_of(g.items@).no_duplicates(),
        ensures
            final(self).wf(),
            final(self)@ == old(self)@.insert(g.dir@, group_items(g)),
    {
        let ghost gs = self.groups@;
        let ghost d = g.dir@;
        let ghost gi = group_items(g);
        self.groups.set(i, g);
        proof {
            let ng = self.groups@;
            assert forall|a: int, b: int| 0 <= a < b < ng.len() implies #[trigger] ng[a].dir@
                != #[trigger] ng[b].dir@ by {
                assert(gs[a].dir@ != gs[b].dir@);
            }
            assert(groups_wf(ng));
            assert forall|a: int| 0 <= a < gs.len() && #[trigger] gs[a].dir@ != d implies exists|
                b: int,
            |
                0 <= b < ng.len() && #[trigger] ng[b].dir@ == gs[a].dir@ && group_items(ng[b])
                    == group_items(gs[a]) by {
                assert(ng[a] == gs[a]);
            }
            assert forall|b: int| 0 <= b < ng.len() && #[trigger] ng[b].dir@ != d implies exists|
                a: int,
            | 0 <= a < gs.len() && #[trigger] gs[a].dir@ == ng[b].dir@ by {
                assert(ng[b] == gs[b]);
            }
            lemma_groups_view_agree(gs, ng, d);
            lemma_groups_view_at(ng, i as int);
            assert(self@ =~= self@.remove(d).insert(d, gi));
            assert(groups_view(gs).remove(d).insert(d, gi) =~= groups_view(gs).insert(d, gi));
        }
    }

    /// Adds `g` for a directory that has no group yet.
    fn add_group(&mut self, g: SelectedDir)
        requires
            old(self).wf(),
            forall|i: int|
                0 <= i < old(self).groups@.len() ==> #[trigger] old(self).groups@[i].dir@ != g.dir@,
            g.items@.len() > 0,
            texts_of(g.items@).no_duplicates(),
        ensures
            final(self).wf(),
            final(self)@ == old(self)@.insert(g.dir@, group_items(g)),
    {
        let ghost gs = self.groups@;
        let ghost d = g.dir@;
        let ghost gi = group_items(g);
        self.groups.push(g);
        proof {
            let ng = self.groups@;
            assert forall|a: int, b: int| 0 <= a < b < ng.len() implies #[trigger] ng[a].dir@
                != #[trigger] ng[b].dir@ by {
                if b < gs.len() {
                    assert(gs[a].dir@ != gs[b].dir@);
                } else {
                    assert(gs[a].dir@ != d);
                }
            }
            assert(groups_wf(ng));
            assert forall|a: int| 0 <= a < gs.len() && #[trigger] gs[a].dir@ != d implies exists|
                b: int,
            |
                0 <= b < ng.len() && #[trigger] ng[b].dir@ == gs[a].dir@ && group_items(ng[b])
                    == group_items(gs[a]) by {
                assert(ng[a] == gs[a]);
            }
            assert forall|b: int| 0 <= b < ng.len() && #[trigger] ng[b].dir@ != d implies exists|
                a: int,
            | 0 <= a < gs.len() && #[trigger] gs[a].dir@ == ng[b].dir@ by {
                assert(ng[b] == gs[b]);
            }
            lemma_groups_view_agree(gs, ng, d);
            lemma_groups_view_at(ng, gs.len() as int);
            assert(self@ =~= self@.remove(d).insert(d, gi));
            assert(groups_view(gs).remove(d).insert(d, gi) =~= groups_view(gs).insert(d, gi));
        }
    }

    /// Selects `item` in `dir`, or unselects it when it was selected; a
    /// directory in which nothing is left selected is dropped.
    pub fn toggle(&mut self, dir: &FsPath, item: String)
        requires
            old(self).wf(),
        ensures
            final(self).wf(),
            final(self)@ == toggled(old(self)@, dir@, item@),
    {
        let ghost gs = self.groups@;
        let ghost it = item@;
        match self.find_group(dir) {
            Some(i) => {
                proof {
                    lemma_groups_view_at(gs, i as int);
                }
                let ghost cur = group_items(gs[i as int]);
                let ghost old_items = texts_of(gs[i as int].items@);
                match find_item(&self.groups[i].items, &item) {
                    Some(j) => {
                        assert(cur.contains(it)) by {
                            assert(old_items[j as int] == it);
                        }
                        if self.groups[i].items.len() == 1 {
                            proof {
                                assert(old_items =~= seq![it]);
                                assert(cur =~= Set::empty().insert(it)) by {
                                    assert forall|x: Seq<char>| cur.contains(x) implies x == it by {
                                        let k = choose|k: int| 0 <= k < old_items.len() && old_items[k] == x;
                                    }
                                }
                                assert(cur.remove(it) =~= Set::<Seq<char>>::empty());
                            }
                            self.remove_group(i);
                        } else {
                            let mut items = copy_parts(&self.groups[i].items, self.groups[i].items.len());
                            items.remove(j);
                            let g = SelectedDir { dir: dir.duplicate(), items };
                            proof {
                                assert(texts_of(g.items@) =~= old_items.remove(j as int));
                                lemma_to_set_remove(old_items, j as int);
                                let other = if j == 0 {
                                    1int
                                } else {
                                    0int
                                };
                                assert(old_items[other] != old_items[j as int]);
                                assert(group_items(g).contains(old_items[other])) by {
                                    assert(old_items.remove(j as int).contains(old_items[other])) by {
                                        if other < j {
                                            assert(old_items.remove(j as int)[other] == old_items[other]);
                                        } else {
                                            assert(old_items.remove(j as int)[other - 1] == old_items[other]);
                                        }
                                    }
                                }
                                assert(group_items(g) == cur.remove(it));
                            }
                            self.replace_group(i, g);
                        }
                    },
                    None => {
                        let mut items = copy_parts(&self.groups[i].items, self.groups[i].items.len());
                        items.push(item);
                        let g = SelectedDir { dir: dir.duplicate(), items };
                        proof {
                            assert(texts_of(g.items@) =~= old_items.push(it));
                            assert(texts_of(g.items@).no_duplicates()) by {
                                assert forall|a: int, b: int|
                                    0 <= a < b < texts_of(g.items@).len() implies texts_of(
                                    g.items@,
                                )[a] != texts_of(g.items@)[b] by {
                                    if b == old_items.len() {
                                        assert(old_items.contains(old_items[a]));
                                    }
                                }
                            }
                            assert(group_items(g) =~= cur.insert(it)) by {
                                assert forall|x: Seq<char>| #[trigger] group_items(g).contains(x)
                                    == cur.insert(it).contains(x) by {
                                    if old_items.contains(x) {
                                        let k = choose|k: int|
                                            0 <= k < old_items.len() && old_items[k] == x;
                                        assert(texts_of(g.items@)[k] == x);
                                    }
                                    if x == it {
                                        assert(texts_of(g.items@)[old_items.len() as int] == x);
                                    }
                                }
                            }
                        }
                        self.replace_group(i, g);
                    },
                }
            },
            None => {
                proof {
                    lemma_groups_view_absent(gs, dir@);
                }
                let mut items: Vec<String> = Vec::new();
                items.push(item);
                let g = SelectedDir { dir: dir.duplicate(), items };
                proof {
                    assert(texts_of(g.items@) =~= seq![it]);
                    assert(group_items(g) =~= Set::<Seq<char>>::empty().insert(it)) by {
                        assert(texts_of(g.items@)[0] == it);
                    }
                }
                self.add_group(g);
            },
        }
    }

    /// Whether `item` is selected in `dir`.
    pub fn is_selected(&self, dir: &FsPath, item: &String) -> (r: bool)
        requires
            self.wf(),
        ensures
            r == selected(self@, dir@, item@),
    {
        match self.find_group(dir) {
            Some(i) => {
                proof {
                    lemma_groups_view_at(self.groups@, i as int);
                }
                match find_item(&self.groups[i].items, item) {
                    Some(j) => {
                        assert(texts_of(self.groups@[i as int].items@)[j as int] == item@);
                        true
                    },
                    None => false,
                }
            },
            None => {
                proof {
                    lemma_groups_view_absent(self.groups@, dir@);
                }
                false
            },
        }
    }

    /// Number of selected entries, over all directories.
    pub open spec fn count_spec(&self) -> nat {
        groups_total(self.groups@)
    }

    /// Nothing is counted exactly when nothing is selected.
    pub proof fn lemma_count_zero(&self)
        requires
            self.wf(),
        ensures
            (self.count_spec() == 0) == (self@ == Map::<Seq<Seq<char>>, Set<Seq<char>>>::empty()),
    {
        lemma_total_zero(self.groups@);
        if self.groups@.len() > 0 {
            lemma_groups_view_at(self.groups@, 0);
            assert(self@.contains_key(self.groups@[0].dir@));
        } else {
            reveal(groups_view);
            assert(self@ =~= Map::<Seq<Seq<char>>, Set<Seq<char>>>::empty());
        }
    }

    /// Total number of selected entries over all directories, or
    /// `usize::MAX` where that would not fit.
    pub fn count(&self) -> (r: usize)
        ensures
            r == if groups_total(self.groups@) <= usize::MAX {
                groups_total(self.groups@)
            } else {
                usize::MAX as nat
            },
    {
        let mut total: usize = 0;
        let mut i: usize = 0;
        while i < self.groups.len()
            invariant
                i <= self.groups.len(),
                total == if groups_total(self.groups@.take(i as int)) <= usize::MAX {
                    groups_total(self.groups@.take(i as int))
                } else {
                    usize::MAX as nat
                },
            decreases self.groups.len() - i,
        {
            assert(self.groups@.take(i + 1).drop_last() =~= self.groups@.take(i as int));
            let n = self.groups[i].items.len();
            if total > usize::MAX - n {
                total = usize::MAX;
            } else {
                total = total + n;
            }
            i = i + 1;
        }
        assert(self.groups@.take(self.groups.len() as int) =~= self.groups@);
        total
    }

    /// Every selected entry, directory by directory.
    pub fn entries(&self) -> (r: Vec<SelectedEntry>)
        requires
            self.wf(),
        ensures
            entry_views(r@) == selection_pairs(self.groups@),
            forall|d: Seq<Seq<char>>, f: Seq<char>|
                #[trigger] entry_views(r@).contains((d, f)) == selected(self@, d, f),
    {
        proof {
            assert forall|d: Seq<Seq<char>>, f: Seq<char>|
                #[trigger] selection_pairs(self.groups@).contains((d, f)) == selected(self@, d, f) by {
                lemma_pairs_selected(self.groups@, d, f);
            }
        }
        let mut out: Vec<SelectedEntry> = Vec::new();
        let mut i: usize = 0;
        while i < self.groups.len()
            invariant
                i <= self.groups.len(),
                entry_views(out@) == selection_pairs(self.groups@.take(i as int)),
            decreases self.groups.len() - i,
        {
            let g = &self.groups[i];
            let ghost before = entry_views(out@);
            let mut j: usize = 0;
            while j < g.items.len()
                invariant
                    j <= g.items.len(),
                    entry_views(out@) == before + group_pairs(*g).take(j as int),
                decreases g.items.len() - j,
            {
                let e = SelectedEntry { dir: g.dir.duplicate(), item: g.items[j].clone() };
                let ghost ev = e@;
                let ghost prev = out@;
                out.push(e);
                assert(entry_views(out@) =~= entry_views(prev).push(ev));
                assert(group_pairs(*g).take(j + 1) =~= group_pairs(*g).take(j as int).push(ev));
                assert(entry_views(out@) =~= before + group_pairs(*g).take(j + 1));
                j = j + 1;
            }
            assert(group_pairs(*g).take(g.items.len() as int) =~= group_pairs(*g));
            assert(self.groups@.take(i + 1).drop_last() =~= self.groups@.take(i as int));
            i = i + 1;
        }
        assert(self.groups@.take(self.groups.len() as int) =~= self.groups@);
        out
    }

    /// Whether nothing is selected: no batch operation is pending.
    pub fn is_empty(&self) -> (r: bool)
        requires
            self.wf(),
        ensures
            r == (self@ == Map::<Seq<Seq<char>>, Set<Seq<char>>>::empty()),
    {
        if self.groups.len() == 0 {
            assert(self@ =~= Map::<Seq<Seq<char>>, Set<Seq<char>>>::empty()) by {
                reveal(groups_view);
            }
            true
        } else {
            proof {
                lemma_groups_view_at(self.groups@, 0);
                assert(self@.contains_key(self.groups@[0].dir@));
            }
            false
        }
    }

    /// Unselects everything.
    pub fn clear(&mut self)
        ensures
            final(self).wf(),
            final(self)@ == Map::<Seq<Seq<char>>, Set<Seq<char>>>::empty(),
    {
        self.groups = Vec::new();
        assert(self@ =~= Map::<Seq<Seq<char>>, Set<Seq<char>>>::empty()) by {
            reveal(groups_view);
        }
    }
}

/// Toggling one entry twice leaves the selection as it was; a directory
/// whose only selected entry is toggled away leaves the selection.
pub proof fn lemma_toggle_twice(sel: Selection, dir: Seq<Seq<char>>, item: Seq<char>)
    requires
        sel.wf(),
    ensures
        toggled(toggled(sel@, dir, item), dir, item) == sel@,
        sel@.contains_key(dir) && sel@[dir] == Set::<Seq<char>>::empty().insert(item) ==> !toggled(
            sel@,
            dir,
            item,
        ).contains_key(dir),
{
    lemma_no_empty_sets(sel.groups@);
    let s = sel@;
    let cur = if s.contains_key(dir) {
        s[dir]
    } else {
        Set::<Seq<char>>::empty()
    };
    let t = toggled(s, dir, item);
    if cur.contains(item) {
        if cur.remove(item) == Set::<Seq<char>>::empty() {
            assert(cur =~= Set::<Seq<char>>::empty().insert(item)) by {
                assert forall|x: Seq<char>| cur.contains(x) implies x == item by {
                    if x != item {
                        assert(cur.remove(item).contains(x));
                    }
                }
            }
            assert(toggled(t, dir, item) =~= s);
        } else {
            assert(cur.remove(item).insert(item) =~= cur);
            assert(toggled(t, dir, item) =~= s);
        }
    } else {
        assert(cur.insert(item).remove(item) =~= cur);
        if s.contains_key(dir) {
            assert(cur.insert(item).remove(item) != Set::<Seq<char>>::empty());
            assert(toggled(t, dir, item) =~= s);
        } else {
            assert(cur.insert(item).remove(item) == Set::<Seq<char>>::empty());
            assert(toggled(t, dir, item) =~= s);
        }
    }
    if s.contains_key(dir) && s[dir] == Set::<Seq<char>>::empty().insert(item) {
        assert(cur.remove(item) =~= Set::<Seq<char>>::empty());
    }
}

} // verus!
