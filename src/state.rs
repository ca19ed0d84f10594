use crate::history::{ledger_lookup, ledger_record, ledger_view, lookup, record, Location};
use crate::listing::{entries_view, listing, nav_buffer_lines, EntryInfo};
use crate::path::{join_path, texts_of, FsPath};
use crate::selection::{selected, toggled, Selection};
use vstd::prelude::*;

verus! {

/// Handle of the selection-summary popup that a session shows: its buffer
/// and its window.
#[derive(Clone, Copy)]
pub struct PopupHandle {
    pub buf: u32,
    pub win: u32,
}

/// What the selection summary of a session needs after the selection
/// changed.
pub enum SummaryAction {
    /// Nothing is selected: close the popup, when there is one.
    Hide(Option<PopupHandle>),
    /// Rewrite the open popup with the new count.
    Refresh(PopupHandle),
    /// Open a popup; its handle is then handed to `set_selection_popup`.
    Show,
}

/// Where the editor opens a file.
#[derive(Clone, Copy)]
pub enum OpenIn {
    /// In place of the navigation buffer.
    Buffer,
    VSplit,
    HSplit,
    Tab,
}

impl OpenIn {
    /// The editor command that opens a file this way.
    pub fn command(&self) -> (r: &'static str)
        ensures
            *self == OpenIn::Buffer ==> r@ == "edit"@,
            *self == OpenIn::VSplit ==> r@ == "vsplit"@,
            *self == OpenIn::HSplit ==> r@ == "split"@,
            *self == OpenIn::Tab ==> r@ == "tabedit"@,
    {
        match self {
            OpenIn::Buffer => "edit",
            OpenIn::VSplit => "vsplit",
            OpenIn::HSplit => "split",
            OpenIn::Tab => "tabedit",
        }
    }
}

/// What OpenEntry does with the entry under the cursor.
pub enum OpenAction {
    /// The listing has no entry there (an empty directory).
    Nothing,
    /// A directory: descend into it (see `AppInstance::descend`).
    Enter { item: String, path: FsPath },
    /// A file: hand its absolute path to the editor.
    OpenFile { path: FsPath },
}

/// The directory a session opened from `anchor` browses: the directory of
/// a file, or the directory itself.
pub open spec fn session_dir(anchor: Seq<Seq<char>>, anchor_is_file: bool) -> Seq<Seq<char>> {
    if anchor_is_file && anchor.len() > 0 {
        anchor.drop_last()
    } else {
        anchor
    }
}

/// Position of the first line equal to `item`, or the number of lines.
pub open spec fn first_pos(lines: Seq<Seq<char>>, item: Seq<char>) -> int
    decreases lines.len(),
{
    if lines.len() == 0 {
        0
    } else if lines[0] == item {
        0
    } else {
        1 + first_pos(lines.drop_first(), item)
    }
}

/// Row on which the cursor is restored: the remembered entry when it is
/// listed, else the first row; no row in an empty listing.
pub open spec fn cursor_row(lines: Seq<Seq<char>>, remembered: Option<Seq<char>>) -> Option<int> {
    if remembered is Some && first_pos(lines, remembered->0) < lines.len() {
        Some(first_pos(lines, remembered->0))
    } else if lines.len() > 0 {
        Some(0)
    } else {
        None
    }
}

/// Whether a displayed name denotes a directory.
pub open spec fn is_dir_name(item: Seq<char>) -> bool {
    item.len() > 0 && item.last() == '/'
}

/// `first_pos` finds the first equal line, or none.
proof fn lemma_first_pos(lines: Seq<Seq<char>>, item: Seq<char>)
    ensures
        0 <= first_pos(lines, item) <= lines.len(),
        first_pos(lines, item) < lines.len() ==> lines[first_pos(lines, item)] == item,
        forall|j: int| 0 <= j < first_pos(lines, item) ==> #[trigger] lines[j] != item,
    decreases lines.len(),
{
    if lines.len() > 0 && lines[0] != item {
        lemma_first_pos(lines.drop_first(), item);
        assert forall|j: int| 0 <= j < first_pos(lines, item) implies #[trigger] lines[j]
            != item by {
            if j > 0 {
                assert(lines[j] == lines.drop_first()[j - 1]);
            }
        }
    }
}

/// Whether a displayed name denotes a directory: it ends with `/`.
pub fn is_dir_item(item: &str) -> (r: bool)
    ensures
        r == is_dir_name(item@),
{
    let n = item.unicode_len();
    n > 0 && item.get_char(n - 1) == '/'
}

/// Session: one navigation context, bound to one editor buffer and window.
pub struct AppInstance {
    pub win: u32,
    pub buf: u32,
    pub show_hidden: bool,
    /// The history ledger: the entry to highlight on coming back to a
    /// directory.
    pub history: Vec<Location>,
    /// The listing of `cwd` that the buffer displays.
    pub buf_content: Vec<String>,
    pub cwd: FsPath,
    /// Where the session returns to when it is closed.
    pub started_from: FsPath,
    pub selection_popup: Option<PopupHandle>,
    /// The children of `cwd` from which `buf_content` was made.
    pub listed: Ghost<Seq<(Seq<char>, bool)>>,
}

impl AppInstance {
    /// The displayed listing is the listing of the children last read, with
    /// the current hidden-file flag.
    pub open spec fn wf(&self) -> bool {
        texts_of(self.buf_content@) == listing(self.listed@, self.show_hidden)
    }

    pub open spec fn content(&self) -> Seq<Seq<char>> {
        texts_of(self.buf_content@)
    }

    pub open spec fn ledger(&self) -> Seq<(Seq<Seq<char>>, Seq<char>)> {
        ledger_view(self.history@)
    }

    /// The directory that a session opened from `started_from` browses.
    pub fn start_dir(started_from: &FsPath, is_file: bool) -> (r: FsPath)
        ensures
            r@ == session_dir(started_from@, is_file),
    {
        if is_file {
            match started_from.parent() {
                Some(p) => p,
                None => started_from.duplicate(),
            }
        } else {
            started_from.duplicate()
        }
    }

    /// Opens a session on buffer `buf` in window `win`, anchored at
    /// `started_from`. When that is a file, the session browses its
    /// directory and remembers the file as the entry to highlight there.
    /// `entries` are the children of that directory.
    pub fn open(
        buf: u32,
        win: u32,
        started_from: FsPath,
        is_file: bool,
        entries: &Vec<EntryInfo>,
    ) -> (r: AppInstance)
        ensures
            r.wf(),
            r.buf == buf,
            r.win == win,
            !r.show_hidden,
            r.cwd@ == session_dir(started_from@, is_file),
            r.started_from@ == started_from@,
            r.selection_popup is None,
            r.listed@ == entries_view(entries@),
            r.ledger() == if is_file && started_from@.len() > 0 {
                seq![(started_from@.drop_last(), started_from@.last())]
            } else {
                Seq::empty()
            },
    {
        let cwd = AppInstance::start_dir(&started_from, is_file);
        let mut history: Vec<Location> = Vec::new();
        if is_file {
            match started_from.file_name() {
                Some(name) => {
                    record(&mut history, &cwd, name);
                    assert(ledger_view(history@) =~= seq![(cwd@, name@)]);
                },
                None => {
                    assert(ledger_view(history@) =~= Seq::empty());
                },
            }
        } else {
            assert(ledger_view(history@) =~= Seq::empty());
        }
        let buf_content = nav_buffer_lines(entries, false);
        AppInstance {
            win,
            buf,
            show_hidden: false,
            history,
            buf_content,
            cwd,
            started_from,
            selection_popup: None,
            listed: Ghost(entries_view(entries@)),
        }
    }

    /// Replaces the listing with the one of `entries`, the children of the
    /// current directory just read.
    fn regenerate(&mut self, entries: &Vec<EntryInfo>)
        ensures
            final(self).wf(),
            final(self).listed@ == entries_view(entries@),
            final(self).win == old(self).win,
            final(self).buf == old(self).buf,
            final(self).show_hidden == old(self).show_hidden,
            final(self).history == old(self).history,
            final(self).cwd == old(self).cwd,
            final(self).started_from == old(self).started_from,
            final(self).selection_popup == old(self).selection_popup,
    {
        self.buf_content = nav_buffer_lines(entries, self.show_hidden);
        self.listed = Ghost(entries_view(entries@));
    }

    /// The listing again, from `entries`: the children of the current
    /// directory read anew after the filesystem changed.
    pub fn set_buffer_content(&mut self, entries: &Vec<EntryInfo>)
        ensures
            final(self).wf(),
            final(self).listed@ == entries_view(entries@),
            final(self).win == old(self).win,
            final(self).buf == old(self).buf,
            final(self).show_hidden == old(self).show_hidden,
            final(self).history == old(self).history,
            final(self).cwd == old(self).cwd,
            final(self).started_from == old(self).started_from,
            final(self).selection_popup == old(self).selection_popup,
    {
        self.regenerate(entries);
    }

    /// Remembers `item` as the entry to highlight on coming back to the
    /// current directory.
    pub fn update_history(&mut self, item: String)
        ensures
            final(self).ledger() == ledger_record(old(self).ledger(), old(self).cwd@, item@),
            final(self).wf() == old(self).wf(),
            final(self).win == old(self).win,
            final(self).buf == old(self).buf,
            final(self).show_hidden == old(self).show_hidden,
            final(self).buf_content == old(self).buf_content,
            final(self).listed == old(self).listed,
            final(self).cwd == old(self).cwd,
            final(self).started_from == old(self).started_from,
            final(self).selection_popup == old(self).selection_popup,
    {
        record(&mut self.history, &self.cwd, item);
    }

    /// Whether the displayed entry `item` of the current directory is
    /// selected.
    pub fn is_selected(&self, selection: &Selection, item: &String) -> (r: bool)
        requires
            selection.wf(),
        ensures
            r == selected(selection@, self.cwd@, item@),
    {
        selection.is_selected(&self.cwd, item)
    }

    /// The displayed entry on `row` (counted from 0), if there is one.
    pub fn get_item(&self, row: usize) -> (r: Option<String>)
        ensures
            r is Some <==> row < self.content().len(),
            r is Some ==> r->0@ == self.content()[row as int],
    {
        if row < self.buf_content.len() {
            Some(self.buf_content[row].clone())
        } else {
            None
        }
    }

    /// Where the cursor goes after the listing was made: the row of the
    /// entry remembered for the current directory when it is listed, else
    /// the first row; none when the directory is empty.
    pub fn nav_cursor(&self) -> (r: Option<usize>)
        ensures
            r is Some <==> cursor_row(self.content(), ledger_lookup(self.ledger(), self.cwd@))
                is Some,
            r is Some ==> r->0 == cursor_row(self.content(), ledger_lookup(self.ledger(), self.cwd@))->0,
    {
        let remembered = lookup(&self.history, &self.cwd);
        if let Some(item) = remembered {
            proof {
                lemma_first_pos(self.content(), item@);
            }
            let mut row: usize = 0;
            while row < self.buf_content.len()
                invariant
                    row <= self.buf_content.len(),
                    ledger_lookup(self.ledger(), self.cwd@) == Some(item@),
                    forall|j: int| 0 <= j < row ==> #[trigger] self.content()[j] != item@,
                decreases self.buf_content.len() - row,
            {
                if self.buf_content[row] == item {
                    proof {
                        lemma_first_pos(self.content(), item@);
                        let f = first_pos(self.content(), item@);
                        if f > row {
                            assert(self.content()[row as int] != item@);
                        }
                        if f < row {
                            assert(self.content()[f] != item@);
                        }
                    }
                    return Some(row);
                }
                row = row + 1;
            }
            proof {
                lemma_first_pos(self.content(), item@);
                let f = first_pos(self.content(), item@);
                if f < self.content().len() {
                    assert(self.content()[f] != item@);
                }
            }
        }
        if self.buf_content.len() > 0 {
            Some(0)
        } else {
            None
        }
    }

    /// OpenEntry: what the entry on `row` asks for. A directory is entered,
    /// a file is opened by its absolute path; a row past the listing asks
    /// for nothing.
    pub fn open_action(&self, row: usize) -> (r: OpenAction)
        ensures
            row >= self.content().len() ==> r == OpenAction::Nothing,
            row < self.content().len() && is_dir_name(self.content()[row as int]) ==> (match r {
                OpenAction::Enter { item, path } => item@ == self.content()[row as int]
                    && path@ == join_path(self.cwd@, item@),
                _ => false,
            }),
            row < self.content().len() && !is_dir_name(self.content()[row as int]) ==> (match r {
                OpenAction::OpenFile { path } => path@ == join_path(
                    self.cwd@,
                    self.content()[row as int],
                ),
                _ => false,
            }),
    {
        match self.get_item(row) {
            None => OpenAction::Nothing,
            Some(item) => {
                let path = self.cwd.join(item.as_str());
                if is_dir_item(item.as_str()) {
                    OpenAction::Enter { item, path }
                } else {
                    OpenAction::OpenFile { path }
                }
            },
        }
    }

    /// The path of a displayed entry of the current directory.
    pub fn entry_path(&self, item: &str) -> (r: FsPath)
        ensures
            r@ == join_path(self.cwd@, item@),
    {
        self.cwd.join(item)
    }

    /// The directory above the current one; none at the root.
    pub fn parent_dir(&self) -> (r: Option<FsPath>)
        ensures
            self.cwd@.len() == 0 ==> r is None,
            self.cwd@.len() > 0 ==> r is Some && r->0@ == self.cwd@.drop_last(),
    {
        self.cwd.parent()
    }

    /// Descend: enters the directory `item` of the listing. The current
    /// directory remembers `item` first, so that coming back up highlights
    /// it. `entries` are the children of the directory entered.
    pub fn descend(&mut self, item: &String, entries: &Vec<EntryInfo>)
        requires
            is_dir_name(item@),
        ensures
            final(self).wf(),
            final(self).cwd@ == join_path(old(self).cwd@, item@),
            final(self).ledger() == ledger_record(old(self).ledger(), old(self).cwd@, item@),
            final(self).listed@ == entries_view(entries@),
            final(self).win == old(self).win,
            final(self).buf == old(self).buf,
            final(self).show_hidden == old(self).show_hidden,
            final(self).started_from == old(self).started_from,
            final(self).selection_popup == old(self).selection_popup,
    {
        self.update_history(item.clone());
        self.cwd = self.cwd.join(item.as_str());
        self.regenerate(entries);
    }

    /// Ascend: moves to the parent directory. The entry on `cursor_row` is
    /// remembered for the directory left (when the listing has that row),
    /// and the directory left is remembered, as a directory name, for the
    /// parent. `entries` are the children of the parent. At the root
    /// nothing changes and `false` is returned.
    pub fn ascend(&mut self, cursor_row: usize, entries: &Vec<EntryInfo>) -> (r: bool)
        ensures
            old(self).cwd@.len() == 0 ==> !r && *final(self) == *old(self),
            old(self).cwd@.len() > 0 ==> r && final(self).wf() && final(self).cwd@ == old(
                self,
            ).cwd@.drop_last() && final(self).ledger() == ledger_record(
                if cursor_row < old(self).content().len() {
                    ledger_record(
                        old(self).ledger(),
                        old(self).cwd@,
                        old(self).content()[cursor_row as int],
                    )
                } else {
                    old(self).ledger()
                },
                old(self).cwd@.drop_last(),
                old(self).cwd@.last().push('/'),
            ) && final(self).listed@ == entries_view(entries@) && final(self).show_hidden == old(
                self,
            ).show_hidden,
            final(self).win == old(self).win,
            final(self).buf == old(self).buf,
            final(self).started_from == old(self).started_from,
            final(self).selection_popup == old(self).selection_popup,
    {
        let parent = match self.cwd.parent() {
            Some(p) => p,
            None => {
                return false;
            },
        };
        if let Some(item) = self.get_item(cursor_row) {
            self.update_history(item);
        }
        let mut name = match self.cwd.file_name() {
            Some(n) => n,
            None => String::new(),
        };
        let ghost last = name@;
        proof {
            reveal_strlit("/");
            assert("/"@ =~= seq!['/']);
        }
        name.append("/");
        assert(name@ =~= last.push('/'));
        self.cwd = parent;
        self.update_history(name);
        self.regenerate(entries);
        true
    }

    /// ToggleHidden: flips whether dot-prefixed entries are listed.
    /// `entries` are the children of the current directory.
    pub fn toggle_hidden(&mut self, entries: &Vec<EntryInfo>)
        ensures
            final(self).wf(),
            final(self).show_hidden == !old(self).show_hidden,
            final(self).listed@ == entries_view(entries@),
            final(self).win == old(self).win,
            final(self).buf == old(self).buf,
            final(self).history == old(self).history,
            final(self).cwd == old(self).cwd,
            final(self).started_from == old(self).started_from,
            final(self).selection_popup == old(self).selection_popup,
    {
        self.show_hidden = !self.show_hidden;
        self.regenerate(entries);
    }

    /// Close: the path the session returns to.
    pub fn close_target(&self) -> (r: FsPath)
        ensures
            r@ == self.started_from@,
    {
        self.started_from.duplicate()
    }

    /// Forgets the selection summary popup, handing back the one to close.
    pub fn close_selection_popup(&mut self) -> (r: Option<PopupHandle>)
        ensures
            r == old(self).selection_popup,
            final(self).selection_popup is None,
            final(self).wf() == old(self).wf(),
            final(self).buf == old(self).buf,
            final(self).win == old(self).win,
            final(self).show_hidden == old(self).show_hidden,
            final(self).cwd == old(self).cwd,
            final(self).started_from == old(self).started_from,
            final(self).history == old(self).history,
            final(self).buf_content == old(self).buf_content,
            final(self).listed == old(self).listed,
    {
        let r = self.selection_popup;
        self.selection_popup = None;
        r
    }

    /// Records the popup opened after `SummaryAction::Show`.
    pub fn set_selection_popup(&mut self, popup: PopupHandle)
        ensures
            final(self).selection_popup == Some(popup),
            final(self).wf() == old(self).wf(),
            final(self).buf == old(self).buf,
            final(self).win == old(self).win,
            final(self).show_hidden == old(self).show_hidden,
            final(self).cwd == old(self).cwd,
            final(self).started_from == old(self).started_from,
            final(self).history == old(self).history,
            final(self).buf_content == old(self).buf_content,
            final(self).listed == old(self).listed,
    {
        self.selection_popup = Some(popup);
    }

    /// What the selection summary needs when `count` entries are selected:
    /// with none it is hidden (and forgotten), else the open popup is
    /// refreshed or a new one is shown.
    pub fn summary_action(&mut self, count: usize) -> (r: SummaryAction)
        ensures
            count == 0 ==> r == SummaryAction::Hide(old(self).selection_popup)
                && final(self).selection_popup is None,
            count > 0 && old(self).selection_popup is Some ==> r == SummaryAction::Refresh(
                old(self).selection_popup->0,
            ) && final(self).selection_popup == old(self).selection_popup,
            count > 0 && old(self).selection_popup is None ==> r == SummaryAction::Show
                && final(self).selection_popup is None,
            final(self).wf() == old(self).wf(),
            final(self).buf == old(self).buf,
            final(self).win == old(self).win,
            final(self).show_hidden == old(self).show_hidden,
            final(self).cwd == old(self).cwd,
            final(self).started_from == old(self).started_from,
            final(self).history == old(self).history,
            final(self).buf_content == old(self).buf_content,
            final(self).listed == old(self).listed,
    {
        if count == 0 {
            SummaryAction::Hide(self.close_selection_popup())
        } else {
            match self.selection_popup {
                Some(p) => SummaryAction::Refresh(p),
                None => SummaryAction::Show,
            }
        }
    }
}

/// What the selection summary of `instance` needs for the current
/// selection (see `AppInstance::summary_action`).
pub fn show_selection_popup(selection: &Selection, instance: &mut AppInstance) -> (r: SummaryAction)
    ensures
        ({
            let n = selection.count_spec();
            &&& n == 0 ==> r == SummaryAction::Hide(old(instance).selection_popup)
                && final(instance).selection_popup is None
            &&& n > 0 && old(instance).selection_popup is Some ==> r == SummaryAction::Refresh(
                old(instance).selection_popup->0,
            ) && final(instance).selection_popup == old(instance).selection_popup
            &&& n > 0 && old(instance).selection_popup is None ==> r == SummaryAction::Show
                && final(instance).selection_popup is None
        }),
        final(instance).wf() == old(instance).wf(),
        final(instance).buf == old(instance).buf,
        final(instance).cwd == old(instance).cwd,
        final(instance).history == old(instance).history,
        final(instance).buf_content == old(instance).buf_content,
{
    let count = selection.count();
    instance.summary_action(count)
}

/// Toggles the selection of the entry on `row` of `instance`, then says
/// what its selection summary needs. A row past the listing selects
/// nothing.
pub fn update_selection_popup(selection: &mut Selection, instance: &mut AppInstance, row: usize) -> (r:
    SummaryAction)
    requires
        old(selection).wf(),
    ensures
        final(selection).wf(),
        row < old(instance).content().len() ==> final(selection)@ == toggled(
            old(selection)@,
            old(instance).cwd@,
            old(instance).content()[row as int],
        ),
        row >= old(instance).content().len() ==> final(selection)@ == old(selection)@,
        ({
            let n = final(selection).count_spec();
            &&& n == 0 ==> r == SummaryAction::Hide(old(instance).selection_popup)
                && final(instance).selection_popup is None
            &&& n > 0 && old(instance).selection_popup is Some ==> r == SummaryAction::Refresh(
                old(instance).selection_popup->0,
            ) && final(instance).selection_popup == old(instance).selection_popup
            &&& n > 0 && old(instance).selection_popup is None ==> r == SummaryAction::Show
                && final(instance).selection_popup is None
        }),
        final(instance).wf() == old(instance).wf(),
        final(instance).buf == old(instance).buf,
        final(instance).cwd == old(instance).cwd,
        final(instance).history == old(instance).history,
        final(instance).buf_content == old(instance).buf_content,
{
    if let Some(item) = instance.get_item(row) {
        selection.toggle(&instance.cwd, item);
    }
    show_selection_popup(selection, instance)
}

/// Index of the session of buffer `buf`, or -1 when there is none.
pub open spec fn session_index(ss: Seq<AppInstance>, buf: u32) -> int
    decreases ss.len(),
{
    if ss.len() == 0 {
        -1
    } else if ss[0].buf == buf {
        0
    } else {
        let r = session_index(ss.drop_first(), buf);
        if r < 0 {
            -1
        } else {
            r + 1
        }
    }
}

pub proof fn lemma_session_index(ss: Seq<AppInstance>, buf: u32)
    ensures
        -1 <= session_index(ss, buf) < ss.len(),
        session_index(ss, buf) >= 0 ==> ss[session_index(ss, buf)].buf == buf,
        forall|j: int|
            0 <= j < ss.len() && (session_index(ss, buf) < 0 || j < session_index(ss, buf))
                ==> #[trigger] ss[j].buf != buf,
    decreases ss.len(),
{
    if ss.len() > 0 && ss[0].buf != buf {
        lemma_session_index(ss.drop_first(), buf);
        assert forall|j: int|
            0 <= j < ss.len() && (session_index(ss, buf) < 0 || j < session_index(ss, buf))
                implies #[trigger] ss[j].buf != buf by {
            if j > 0 {
                assert(ss[j] == ss.drop_first()[j - 1]);
            }
        }
    }
}

/// Session Registry: the live sessions by buffer, the active one, and the
/// selection shared by all of them.
pub struct AppState {
    pub active_buf: Option<u32>,
    pub instances: Vec<AppInstance>,
    pub selection: Selection,
}

impl AppState {
    /// One session per buffer, each well formed; the active buffer, when
    /// set, has one; the selection is well formed.
    pub open spec fn wf(&self) -> bool {
        &&& forall|i: int, j: int|
            0 <= i < j < self.instances@.len() ==> #[trigger] self.instances@[i].buf
                != #[trigger] self.instances@[j].buf
        &&& forall|i: int| 0 <= i < self.instances@.len() ==> #[trigger] self.instances@[i].wf()
        &&& self.active_buf is Some ==> session_index(self.instances@, self.active_buf->0) >= 0
        &&& self.selection.wf()
    }

    /// The registry as the lifecycle events see it: the active buffer and
    /// the sessions.
    pub open spec fn model(&self) -> (Option<u32>, Seq<AppInstance>) {
        (self.active_buf, self.instances@)
    }

    /// A registry with no session and nothing selected.
    pub fn init() -> (r: AppState)
        ensures
            r.wf(),
            r.active_buf is None,
            r.instances@.len() == 0,
            r.selection@ == Map::<Seq<Seq<char>>, Set<Seq<char>>>::empty(),
    {
        AppState { active_buf: None, instances: Vec::new(), selection: Selection::new() }
    }

    /// The buffer of the active session, if any.
    pub fn active_buf(&self) -> (r: Option<u32>)
        ensures
            r == self.active_buf,
    {
        self.active_buf
    }

    /// Makes the session of `buf` the active one; a buffer without a
    /// session is not taken and `false` is returned.
    pub fn set_active_buf(&mut self, buf: u32) -> (r: bool)
        requires
            old(self).wf(),
        ensures
            final(self).wf(),
            r == (session_index(old(self).instances@, buf) >= 0),
            r ==> final(self).active_buf == Some(buf),
            !r ==> final(self).active_buf == old(self).active_buf,
            final(self).instances == old(self).instances,
            final(self).selection == old(self).selection,
    {
        match self.find_session(buf) {
            Some(_) => {
                self.active_buf = Some(buf);
                true
            },
            None => false,
        }
    }

    /// Position of the session of `buf`.
    pub fn find_session(&self, buf: u32) -> (r: Option<usize>)
        ensures
            r is Some <==> session_index(self.instances@, buf) >= 0,
            r is Some ==> r->0 == session_index(self.instances@, buf) && r->0
                < self.instances@.len(),
    {
        let mut i: usize = 0;
        while i < self.instances.len()
            invariant
                i <= self.instances.len(),
                forall|j: int| 0 <= j < i ==> #[trigger] self.instances@[j].buf != buf,
            decreases self.instances.len() - i,
        {
            if self.instances[i].buf == buf {
                proof {
                    lemma_session_index(self.instances@, buf);
                    let f = session_index(self.instances@, buf);
                    if f < 0 || f > i {
                        assert(self.instances@[i as int].buf != buf);
                    }
                    if f < i {
                        assert(self.instances@[f].buf != buf);
                    }
                }
                return Some(i);
            }
            i = i + 1;
        }
        proof {
            lemma_session_index(self.instances@, buf);
            let f = session_index(self.instances@, buf);
            if f >= 0 {
                assert(self.instances@[f].buf != buf);
            }
        }
        None
    }

    /// Takes the session of `buf` out of the registry; it is no longer
    /// active.
    pub fn remove_instance(&mut self, buf: u32) -> (r: Option<AppInstance>)
        requires
            old(self).wf(),
        ensures
            final(self).wf(),
            final(self).model() == remove_session(old(self).model(), buf),
            session_index(old(self).instances@, buf) >= 0 ==> r is Some && r->0 == old(
                self,
            ).instances@[session_index(old(self).instances@, buf)] && r->0.wf(),
            session_index(old(self).instances@, buf) < 0 ==> r is None,
            final(self).selection == old(self).selection,
    {
        let ghost ss = self.instances@;
        proof {
            lemma_session_index(ss, buf);
        }
        match self.find_session(buf) {
            Some(i) => {
                let inst = self.instances.remove(i);
                if self.active_buf == Some(buf) {
                    self.active_buf = None;
                }
                proof {
                    let ns = self.instances@;
                    assert forall|a: int| 0 <= a < ns.len() implies #[trigger] ns[a].wf() by {
                        if a < i {
                            assert(ns[a] == ss[a]);
                        } else {
                            assert(ns[a] == ss[a + 1]);
                        }
                    }
                    assert forall|a: int, b: int| 0 <= a < b < ns.len() implies #[trigger] ns[a].buf
                        != #[trigger] ns[b].buf by {
                        if b < i {
                            assert(ss[a].buf != ss[b].buf);
                        } else if a < i {
                            assert(ss[a].buf != ss[b + 1].buf);
                        } else {
                            assert(ss[a + 1].buf != ss[b + 1].buf);
                        }
                    }
                    if self.active_buf is Some {
                        let act = self.active_buf->0;
                        let k = session_index(ss, act);
                        lemma_session_index(ss, act);
                        lemma_session_index(ns, act);
                        assert(k != i);
                        if k < i {
                            assert(ns[k] == ss[k]);
                            assert(ns[k].buf == act);
                        } else {
                            assert(ns[k - 1] == ss[k]);
                            assert(ns[k - 1].buf == act);
                        }
                    }
                }
                Some(inst)
            },
            None => None,
        }
    }

    /// Puts a session into the registry, replacing the one of the same
    /// buffer, and makes it the active one.
    pub fn insert_instance(&mut self, inst: AppInstance)
        requires
            old(self).wf(),
            inst.wf(),
        ensures
            final(self).wf(),
            final(self).model() == insert_session(old(self).model(), inst),
            session_index(final(self).instances@, inst.buf) >= 0,
            final(self).instances@[session_index(final(self).instances@, inst.buf)] == inst,
            final(self).selection == old(self).selection,
    {
        let ghost ss = self.instances@;
        let buf = inst.buf;
        proof {
            lemma_session_index(ss, buf);
        }
        let ghost v = inst;
        match self.find_session(buf) {
            Some(i) => {
                self.instances.set(i, inst);
                assert(self.instances@ == ss.update(i as int, v));
                proof {
                    let ns = self.instances@;
                    assert forall|a: int| 0 <= a < ns.len() implies #[trigger] ns[a].wf() by {
                        if a != i {
                            assert(ns[a] == ss[a]);
                        }
                    }
                    assert forall|a: int, b: int| 0 <= a < b < ns.len() implies #[trigger] ns[a].buf
                        != #[trigger] ns[b].buf by {
                        assert(ss[a].buf != ss[b].buf);
                    }
                    lemma_session_index(ns, buf);
                    let f = session_index(ns, buf);
                    if f < 0 || f > i {
                        assert(ns[i as int].buf != buf);
                    }
                    if f < i {
                        assert(ns[f] == ss[f]);
                    }
                }
            },
            None => {
                self.instances.push(inst);
                assert(self.instances@ == ss.push(v));
                proof {
                    let ns = self.instances@;
                    assert forall|a: int| 0 <= a < ns.len() implies #[trigger] ns[a].wf() by {
                        if a < ss.len() {
                            assert(ns[a] == ss[a]);
                        }
                    }
                    assert forall|a: int, b: int| 0 <= a < b < ns.len() implies #[trigger] ns[a].buf
                        != #[trigger] ns[b].buf by {
                        if b < ss.len() {
                            assert(ss[a].buf != ss[b].buf);
                        } else {
                            assert(ss[a].buf != buf);
                        }
                    }
                    lemma_session_index(ns, buf);
                    let f = session_index(ns, buf);
                    let l = ss.len() as int;
                    if f < 0 || f > l {
                        assert(ns[l].buf != buf);
                    }
                    if 0 <= f < l {
                        assert(ns[f] == ss[f]);
                    }
                }
            },
        }
        self.active_buf = Some(buf);
    }

    /// Opens a session on buffer `buf` in window `win`, anchored at
    /// `started_from` (see `AppInstance::open`), and makes it the active
    /// one. `entries` are the children of the directory it browses.
    pub fn open_navigation(
        &mut self,
        buf: u32,
        win: u32,
        started_from: FsPath,
        is_file: bool,
        entries: &Vec<EntryInfo>,
    )
        requires
            old(self).wf(),
        ensures
            final(self).wf(),
            final(self).active_buf == Some(buf),
            session_index(final(self).instances@, buf) >= 0,
            ({
                let s = final(self).instances@[session_index(final(self).instances@, buf)];
                &&& s.wf()
                &&& s.buf == buf
                &&& s.win == win
                &&& !s.show_hidden
                &&& s.cwd@ == session_dir(started_from@, is_file)
                &&& s.started_from@ == started_from@
                &&& s.selection_popup is None
                &&& s.listed@ == entries_view(entries@)
                &&& s.ledger() == if is_file && started_from@.len() > 0 {
                    seq![(started_from@.drop_last(), started_from@.last())]
                } else {
                    Seq::empty()
                }
            }),
            final(self).selection == old(self).selection,
    {
        let inst = AppInstance::open(buf, win, started_from, is_file, entries);
        self.insert_instance(inst);
    }

    /// Takes the active session out of the registry, to be put back with
    /// `insert_instance` once a handler is done with it.
    pub fn take_active(&mut self) -> (r: Option<AppInstance>)
        requires
            old(self).wf(),
        ensures
            final(self).wf(),
            old(self).active_buf is None ==> r is None && *final(self) == *old(self),
            old(self).active_buf is Some ==> r is Some && r->0.buf == old(self).active_buf->0
                && r->0.wf()
                && final(self).model() == remove_session(old(self).model(), old(self).active_buf->0),
            final(self).selection == old(self).selection,
    {
        match self.active_buf {
            Some(buf) => {
                proof {
                    lemma_session_index(self.instances@, buf);
                }
                self.remove_instance(buf)
            },
            None => None,
        }
    }
}

/// The registry with session `inst` in place of the one of its buffer (or
/// added after the others), active.
pub open spec fn insert_session(m: (Option<u32>, Seq<AppInstance>), inst: AppInstance) -> (
    Option<u32>,
    Seq<AppInstance>,
) {
    let i = session_index(m.1, inst.buf);
    (Some(inst.buf), if i >= 0 {
        m.1.update(i, inst)
    } else {
        m.1.push(inst)
    })
}

/// The registry without the session of `buf`; a removed active session
/// leaves no session active.
pub open spec fn remove_session(m: (Option<u32>, Seq<AppInstance>), buf: u32) -> (
    Option<u32>,
    Seq<AppInstance>,
) {
    let i = session_index(m.1, buf);
    if i >= 0 {
        (
            if m.0 == Some(buf) {
                None
            } else {
                m.0
            },
            m.1.remove(i),
        )
    } else {
        m
    }
}

} // verus!
