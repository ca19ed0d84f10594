use vstd::prelude::*;

verus! {

/// Position of the first `c` in `s`, or its length when there is none.
pub open spec fn first_index(s: Seq<char>, c: char) -> int
    decreases s.len(),
{
    if s.len() == 0 {
        0
    } else if s[0] == c {
        0
    } else {
        1 + first_index(s.drop_first(), c)
    }
}

/// Whether a piece between separators is kept: empty pieces never are,
/// and `.` is not where `drop_dots` holds.
pub open spec fn keep_piece(piece: Seq<char>, drop_dots: bool) -> bool {
    piece.len() > 0 && !(drop_dots && piece == seq!['.'])
}

/// The kept pieces of `s` between occurrences of `sep`, in order.
pub open spec fn pieces(s: Seq<char>, sep: char, drop_dots: bool) -> Seq<Seq<char>>
    decreases s.len(),
{
    let k = first_index(s, sep);
    let head = s.subrange(0, k);
    let rest = if 0 <= k < s.len() {
        pieces(s.subrange(k + 1, s.len() as int), sep, drop_dots)
    } else {
        Seq::empty()
    };
    if keep_piece(head, drop_dots) {
        seq![head] + rest
    } else {
        rest
    }
}

/// The components that a path text names, in order: its pieces between
/// `/`, but for empty pieces and `.`.
pub open spec fn components(s: Seq<char>) -> Seq<Seq<char>> {
    pieces(s, '/', true)
}

/// `text` joined onto the directory `base`: an absolute text replaces it.
pub open spec fn join_path(base: Seq<Seq<char>>, text: Seq<char>) -> Seq<Seq<char>> {
    if text.len() > 0 && text[0] == '/' {
        components(text)
    } else {
        base + components(text)
    }
}

/// The text of an absolute path with the given components.
pub open spec fn render(parts: Seq<Seq<char>>) -> Seq<char>
    decreases parts.len(),
{
    if parts.len() == 0 {
        Seq::empty()
    } else {
        render(parts.drop_last()) + seq!['/'] + parts.last()
    }
}

/// The text of an absolute path: `/` alone for the root.
pub open spec fn path_text(parts: Seq<Seq<char>>) -> Seq<char> {
    if parts.len() == 0 {
        seq!['/']
    } else {
        render(parts)
    }
}

/// The texts of a list of strings.
pub open spec fn texts_of(v: Seq<String>) -> Seq<Seq<char>> {
    v.map_values(|s: String| s@)
}

pub proof fn lemma_first_index(s: Seq<char>, c: char, m: int)
    requires
        0 <= m <= s.len(),
        forall|j: int| 0 <= j < m ==> s[j] != c,
        m == s.len() || s[m] == c,
    ensures
        first_index(s, c) == m,
    decreases s.len(),
{
    if s.len() > 0 && m > 0 {
        lemma_first_index(s.drop_first(), c, m - 1);
    }
}

/// An absolute path, held as its components: the root has none.
pub struct FsPath {
    pub parts: Vec<String>,
}

impl View for FsPath {
    type V = Seq<Seq<char>>;

    open spec fn view(&self) -> Seq<Seq<char>> {
        texts_of(self.parts@)
    }
}

/// A copy of the first `n` strings of `v`.
pub(crate) fn copy_parts(v: &Vec<String>, n: usize) -> (r: Vec<String>)
    requires
        n <= v.len(),
    ensures
        r@.len() == n,
        texts_of(r@) == texts_of(v@).take(n as int),
        n == v@.len() ==> texts_of(r@) == texts_of(v@),
{
    let mut out: Vec<String> = Vec::new();
    let mut i: usize = 0;
    while i < n
        invariant
            i <= n <= v.len(),
            out@.len() == i,
            texts_of(out@) == texts_of(v@).take(i as int),
        decreases n - i,
    {
        let part = v[i].clone();
        assert(part@ == v@[i as int]@);
        let ghost before = out@;
        out.push(part);
        assert forall|k: int| 0 <= k <= i implies #[trigger] texts_of(out@)[k] == texts_of(
            v@,
        )[k] by {
            if k < i {
                assert(out@[k] == before[k]);
                assert(texts_of(before)[k] == texts_of(v@).take(i as int)[k]);
            }
        }
        assert(texts_of(out@) =~= texts_of(v@).take(i + 1));
        i = i + 1;
    }
    assert(texts_of(v@).take(v@.len() as int) =~= texts_of(v@));
    out
}

/// Whether a piece is kept (see `keep_piece`).
fn keep_piece_exec(piece: &str, drop_dots: bool) -> (r: bool)
    ensures
        r == keep_piece(piece@, drop_dots),
{
    let n = piece.unicode_len();
    if n == 0 {
        false
    } else if drop_dots && n == 1 && piece.get_char(0) == '.' {
        assert(piece@ =~= seq!['.']);
        false
    } else {
        assert(n != 1 ==> piece@.len() != seq!['.'].len());
        true
    }
}

/// Appends to `out` the kept pieces of `text` between occurrences of `sep`.
pub fn push_pieces(out: &mut Vec<String>, text: &str, sep: char, drop_dots: bool)
    ensures
        texts_of(final(out)@) == texts_of(old(out)@) + pieces(text@, sep, drop_dots),
{
    let n = text.unicode_len();
    proof {
        assert(text@.subrange(0, n as int) =~= text@);
        assert(texts_of(out@) + pieces(text@, sep, drop_dots) =~= texts_of(old(out)@)
            + pieces(text@, sep, drop_dots));
    }
    let mut start: usize = 0;
    let mut i: usize = 0;
    while i < n
        invariant
            n == text@.len(),
            start <= i <= n,
            forall|j: int| start <= j < i ==> text@[j] != sep,
            texts_of(out@) + pieces(text@.subrange(start as int, n as int), sep, drop_dots)
                == texts_of(old(out)@) + pieces(text@, sep, drop_dots),
        decreases n - i,
    {
        if text.get_char(i) == sep {
            let ghost rest = text@.subrange(start as int, n as int);
            proof {
                lemma_first_index(rest, sep, i - start);
                assert(rest.subrange(0, i - start) =~= text@.subrange(start as int, i as int));
                assert(rest.subrange(i - start + 1, rest.len() as int) =~= text@.subrange(
                    i + 1,
                    n as int,
                ));
            }
            let piece = text.substring_char(start, i);
            if keep_piece_exec(piece, drop_dots) {
                let ghost before = texts_of(out@);
                out.push(String::from_str(piece));
                assert(texts_of(out@) =~= before.push(piece@));
                assert(before + (seq![piece@] + pieces(text@.subrange(i + 1, n as int), sep, drop_dots))
                    =~= before.push(piece@) + pieces(text@.subrange(i + 1, n as int), sep, drop_dots));
            }
            start = i + 1;
        }
        i = i + 1;
    }
    let ghost rest = text@.subrange(start as int, n as int);
    proof {
        lemma_first_index(rest, sep, n - start);
        assert(rest.subrange(0, n - start) =~= rest);
    }
    let piece = text.substring_char(start, n);
    if keep_piece_exec(piece, drop_dots) {
        let ghost before = texts_of(out@);
        out.push(String::from_str(piece));
        assert(texts_of(out@) =~= before.push(piece@));
        assert(before + seq![piece@] =~= before.push(piece@));
    } else {
        assert(texts_of(out@) + Seq::<Seq<char>>::empty() =~= texts_of(out@));
    }
}

impl FsPath {
    /// The filesystem root.
    pub fn root() -> (r: FsPath)
        ensures
            r@ == Seq::<Seq<char>>::empty(),
    {
        let r = FsPath { parts: Vec::new() };
        assert(r@ =~= Seq::<Seq<char>>::empty());
        r
    }

    /// The path that an absolute path text names.
    pub fn parse(text: &str) -> (r: FsPath)
        ensures
            r@ == join_path(Seq::empty(), text@),
    {
        FsPath::root().join(text)
    }

    /// A copy of this path.
    pub fn duplicate(&self) -> (r: FsPath)
        ensures
            r@ == self@,
    {
        let r = FsPath { parts: copy_parts(&self.parts, self.parts.len()) };
        assert(r@ =~= self@);
        r
    }

    /// `text` joined onto this directory: each `/`-separated piece of it is
    /// a further component, but for empty pieces and `.`; a text that starts
    /// with `/` is taken from the root.
    pub fn join(&self, text: &str) -> (r: FsPath)
        ensures
            r@ == join_path(self@, text@),
    {
        let absolute = text.unicode_len() > 0 && text.get_char(0) == '/';
        let mut parts: Vec<String> = if absolute {
            Vec::new()
        } else {
            copy_parts(&self.parts, self.parts.len())
        };
        assert(absolute ==> texts_of(parts@) =~= Seq::<Seq<char>>::empty());
        push_pieces(&mut parts, text, '/', true);
        FsPath { parts }
    }

    /// The directory above this one; the root has none.
    pub fn parent(&self) -> (r: Option<FsPath>)
        ensures
            self@.len() == 0 ==> r is None,
            self@.len() > 0 ==> r is Some && r->0@ == self@.drop_last(),
    {
        if self.parts.len() == 0 {
            None
        } else {
            let parts = copy_parts(&self.parts, self.parts.len() - 1);
            assert(texts_of(self.parts@).take(self.parts.len() - 1) =~= self@.drop_last());
            Some(FsPath { parts })
        }
    }

    /// The last component; the root has none.
    pub fn file_name(&self) -> (r: Option<String>)
        ensures
            self@.len() == 0 ==> r is None,
            self@.len() > 0 ==> r is Some && r->0@ == self@.last(),
    {
        if self.parts.len() == 0 {
            None
        } else {
            Some(self.parts[self.parts.len() - 1].clone())
        }
    }

    /// Whether both name the same directory.
    pub fn same_as(&self, other: &FsPath) -> (r: bool)
        ensures
            r == (self@ == other@),
    {
        if self.parts.len() != other.parts.len() {
            assert(self@.len() != other@.len());
            return false;
        }
        let mut i: usize = 0;
        while i < self.parts.len()
            invariant
                i <= self.parts.len() == other.parts.len(),
                forall|j: int| 0 <= j < i ==> self@[j] == other@[j],
            decreases self.parts.len() - i,
        {
            if self.parts[i] != other.parts[i] {
                assert(self@[i as int] != other@[i as int]);
                return false;
            }
            i = i + 1;
        }
        assert(self@ =~= other@);
        true
    }

    /// The text of this path: `/` for the root, else `/` before each
    /// component.
    pub fn to_text(&self) -> (r: String)
        ensures
            r@ == path_text(self@),
    {
        proof {
            reveal_strlit("/");
        }
        if self.parts.len() == 0 {
            return String::from_str("/");
        }
        let mut out = String::new();
        let mut i: usize = 0;
        while i < self.parts.len()
            invariant
                i <= self.parts.len(),
                out@ == render(self@.take(i as int)),
            decreases self.parts.len() - i,
        {
            assert(self@.take(i as int) =~= self@.take(i + 1).drop_last());
            assert(self@.take(i + 1).last() == self.parts@[i as int]@);
            proof {
                reveal_strlit("/");
            }
            assert("/"@ =~= seq!['/']);
            out.append("/");
            out.append(self.parts[i].as_str());
            i = i + 1;
        }
        assert(self@.take(self.parts.len() as int) =~= self@);
        out
    }
}

} // verus!
