//! What the viewer keeps between frames, and the decisions it takes on it:
//! which bigfile tree is shown, which files are selected, which dialogs are
//! open, and which image preview is held.
use vstd::prelude::*;
use crate::path::{is_prefix, is_longest_common_prefix, longest_common_prefix, parent_of,
    views_of, PathParts};
use crate::text::{extracted_message, load_prompt, load_prompt_text, decimal_digits};
use crate::tree::{Dir, File, files_at, numbered_files, numbered_files_at, path_views};

verus! {

/// The dialogs of the viewer.
#[derive(Clone, Copy, PartialEq, Eq, Structural, Debug)]
pub enum Modal {
    Error,
    Bigfile,
    Extract,
}

/// What a menu entry or a keyboard shortcut asks for.
#[derive(Clone, Copy, PartialEq, Eq, Structural, Debug)]
pub enum Action {
    Open,
    Close,
    ExtractAll,
    ExtractSelected,
}

/// Where the preview of the first selected file comes from.
#[derive(Clone, Copy, PartialEq, Eq, Structural, Debug)]
pub enum PreviewSource {
    /// The image held already is that of the first selected file.
    Held,
    /// The image has to be read from the bigfile.
    Read,
    /// No bigfile is loaded to read it from.
    Unavailable,
}

/// One file to write out when extracting the selection: where it is in the
/// bigfile, and where it goes below the chosen directory.
pub struct ExtractJob {
    pub source: PathParts,
    pub target: PathParts,
}

/// The viewer's state.
pub struct App {
    /// Whether a bigfile is loaded.
    pub loaded: bool,
    /// The tree of the loaded bigfile's entries.
    pub tree: Dir,
    /// The selected files, in the order they were selected.
    pub selected: Vec<File>,
    pub bigfile_modal: Option<String>,
    pub error_modal: Option<String>,
    pub extract_modal: Option<String>,
    /// The path whose image the preview holds.
    pub preview: Option<PathParts>,
}

/// The plain view of an optional string.
pub open spec fn opt_view(o: Option<String>) -> Option<Seq<char>> {
    match o {
        Some(s) => Some(s@),
        None => None,
    }
}

/// The parents of the paths of the given files.
pub open spec fn parents_of(s: Seq<File>) -> Seq<Seq<Seq<char>>> {
    s.map_values(|f: File| parent_of(f.path@))
}

impl App {
    /// A viewer with nothing loaded, selected or open.
    pub fn new() -> (a: App)
        ensures
            !a.loaded,
            a.tree.wf(),
            a.tree.entries().len() == 0,
            a.tree.dirs@.len() == 0,
            a.tree.files@.len() == 0,
            a.selected@.len() == 0,
            a.bigfile_modal is None,
            a.error_modal is None,
            a.extract_modal is None,
            a.preview is None,
    {
        App {
            loaded: false,
            tree: Dir::new(),
            selected: Vec::new(),
            bigfile_modal: None,
            error_modal: None,
            extract_modal: None,
            preview: None,
        }
    }

    /// Shows `text` in the error dialog.
    pub fn error(&mut self, text: String)
        ensures
            final(self).error_modal == Some(text),
            final(self).loaded == old(self).loaded,
            final(self).tree == old(self).tree,
            final(self).selected == old(self).selected,
            final(self).bigfile_modal == old(self).bigfile_modal,
            final(self).extract_modal == old(self).extract_modal,
            final(self).preview == old(self).preview,
    {
        self.error_modal = Some(text);
    }

    /// Takes in a bigfile whose entries have the given paths: its tree
    /// replaces the one shown. The selection and the preview are kept.
    pub fn finish_load(&mut self, paths: &Vec<PathParts>)
        ensures
            final(self).loaded,
            final(self).tree.wf(),
            final(self).tree.paths_match(Seq::empty()),
            final(self).tree.compact(),
            final(self).tree.entries() =~= numbered_files(path_views(paths@)),
            forall|rel: Seq<Seq<char>>| #[trigger] files_at(final(self).tree, rel) == numbered_files_at(
                path_views(paths@),
                rel,
            ),
            final(self).selected == old(self).selected,
            final(self).bigfile_modal == old(self).bigfile_modal,
            final(self).error_modal == old(self).error_modal,
            final(self).extract_modal == old(self).extract_modal,
            final(self).preview == old(self).preview,
    {
        self.tree = Dir::from_paths(paths);
        self.loaded = true;
    }

    /// Closes the bigfile: no tree, no selection, no preview. The dialogs
    /// stay as they are.
    pub fn unload_bigfile(&mut self)
        ensures
            !final(self).loaded,
            final(self).tree.wf(),
            final(self).tree.entries().len() == 0,
            final(self).tree.dirs@.len() == 0,
            final(self).tree.files@.len() == 0,
            final(self).selected@.len() == 0,
            final(self).preview is None,
            final(self).bigfile_modal == old(self).bigfile_modal,
            final(self).error_modal == old(self).error_modal,
            final(self).extract_modal == old(self).extract_modal,
    {
        self.loaded = false;
        self.tree = Dir::new();
        self.selected.clear();
        self.preview = None;
    }

    /// Asks whether the chosen bigfile goes into memory whole. `data` is the
    /// name and byte size of its data file, where the size could be read.
    pub fn ask_load(&mut self, data: Option<(String, u64)>)
        ensures
            final(self).bigfile_modal matches Some(t) && t@ == load_prompt_text(
                match data {
                    Some((name, len)) => Some((name@, len)),
                    None => None,
                },
            ),
            final(self).loaded == old(self).loaded,
            final(self).tree == old(self).tree,
            final(self).selected == old(self).selected,
            final(self).error_modal == old(self).error_modal,
            final(self).extract_modal == old(self).extract_modal,
            final(self).preview == old(self).preview,
    {
        self.bigfile_modal = Some(load_prompt(data));
    }

    /// Reports a whole bigfile of `count` files extracted.
    pub fn finish_extract_all(&mut self, count: usize)
        ensures
            final(self).extract_modal matches Some(t) && t@ == "Finished extracting "@
                + decimal_digits(count as nat) + " files"@,
            final(self).loaded == old(self).loaded,
            final(self).tree == old(self).tree,
            final(self).selected == old(self).selected,
            final(self).bigfile_modal == old(self).bigfile_modal,
            final(self).error_modal == old(self).error_modal,
            final(self).preview == old(self).preview,
    {
        self.extract_modal = Some(extracted_message(count));
    }

    /// Closes one dialog.
    pub fn dismiss(&mut self, modal: Modal)
        ensures
            modal == Modal::Error ==> final(self).error_modal is None,
            modal != Modal::Error ==> final(self).error_modal == old(self).error_modal,
            modal == Modal::Bigfile ==> final(self).bigfile_modal is None,
            modal != Modal::Bigfile ==> final(self).bigfile_modal == old(self).bigfile_modal,
            modal == Modal::Extract ==> final(self).extract_modal is None,
            modal != Modal::Extract ==> final(self).extract_modal == old(self).extract_modal,
            final(self).loaded == old(self).loaded,
            final(self).tree == old(self).tree,
            final(self).selected == old(self).selected,
            final(self).preview == old(self).preview,
    {
        match modal {
            Modal::Error => {
                self.error_modal = None;
            },
            Modal::Bigfile => {
                self.bigfile_modal = None;
            },
            Modal::Extract => {
                self.extract_modal = None;
            },
        }
    }

    /// Whether a menu entry or shortcut can be used now: closing and
    /// extracting everything need a loaded bigfile, extracting the
    /// selection needs a selection, and opening is always there.
    pub fn enabled(&self, action: Action) -> (b: bool)
        ensures
            b == allows(*self, action),
            action == Action::Open ==> b,
            action == Action::Close ==> b == self.loaded,
            action == Action::ExtractAll ==> b == self.loaded,
            action == Action::ExtractSelected ==> b == (self.selected@.len() > 0),
    {
        match action {
            Action::Open => true,
            Action::Close => self.loaded,
            Action::ExtractAll => self.loaded,
            Action::ExtractSelected => self.selected.len() > 0,
        }
    }

    /// Whether the file is selected: some selected file has its number.
    pub fn is_selected(&self, file: &File) -> (b: bool)
        ensures
            b == selects(*self, file.id),
            b <==> exists|i: int| 0 <= i < self.selected@.len() && #[trigger] self.selected@[i].id == file.id,
    {
        let n = self.selected.len();
        let mut i: usize = 0;
        while i < n
            invariant
                n == self.selected@.len(),
                i <= n,
                forall|j: int| 0 <= j < i ==> #[trigger] self.selected@[j].id != file.id,
            decreases n - i,
        {
            if self.selected[i].id == file.id {
                return true;
            }
            i = i + 1;
        }
        false
    }

    /// A click on a file: with the command key alone held it joins the
    /// selection, otherwise it becomes the whole selection.
    pub fn click(&mut self, file: &File, command_only: bool)
        ensures
            command_only ==> final(self).selected@.len() == old(self).selected@.len() + 1
                && (forall|i: int| 0 <= i < old(self).selected@.len() ==> #[trigger] final(self).selected@[i] == old(self).selected@[i]),
            !command_only ==> final(self).selected@.len() == 1,
            final(self).selected@.last()@ == file@,
            final(self).loaded == old(self).loaded,
            final(self).tree == old(self).tree,
            final(self).bigfile_modal == old(self).bigfile_modal,
            final(self).error_modal == old(self).error_modal,
            final(self).extract_modal == old(self).extract_modal,
            final(self).preview == old(self).preview,
    {
        if !command_only {
            self.selected.clear();
        }
        self.selected.push(file.duplicate());
    }

    /// The longest common path of the directories of the selected files.
    pub fn common_prefix(&self) -> (r: PathParts)
        requires
            self.selected@.len() > 0,
        ensures
            is_longest_common_prefix(r@, parents_of(self.selected@)),
            forall|i: int| 0 <= i < self.selected@.len() ==> is_prefix(r@, parent_of(#[trigger] self.selected@[i].path@)),
            exists|i: int| 0 <= i < self.selected@.len() && (parent_of(#[trigger] self.selected@[i].path@).len() == r@.len()
                || parent_of(self.selected@[i].path@)[r@.len() as int] != parent_of(self.selected@[0].path@)[r@.len() as int]),
    {
        let n = self.selected.len();
        let mut parents: Vec<PathParts> = Vec::new();
        let mut i: usize = 0;
        while i < n
            invariant
                n == self.selected@.len(),
                i <= n,
                parents@.len() == i,
                forall|j: int| 0 <= j < i ==> #[trigger] parents@[j]@ == parent_of(self.selected@[j].path@),
            decreases n - i,
        {
            parents.push(self.selected[i].path.parent());
            i = i + 1;
        }
        assert(views_of(parents@) =~= parents_of(self.selected@));
        let r = longest_common_prefix(&parents);
        proof {
            lemma_parents_of(self.selected@);
            let ps = parents_of(self.selected@);
            assert forall|i: int| 0 <= i < self.selected@.len() implies is_prefix(r@, parent_of(#[trigger] self.selected@[i].path@)) by {
                assert(is_prefix(r@, ps[i]));
            }
            let k = choose|i: int| 0 <= i < ps.len() && (#[trigger] ps[i].len() == r@.len() || ps[i][r@.len() as int] != ps[0][r@.len() as int]);
            assert(ps[k] == parent_of(self.selected@[k].path@));
        }
        r
    }

    /// For each selected file, in order, where it is written when the
    /// selection is extracted: its path with the directories that all
    /// selected files share taken off the front.
    pub fn extract_plan(&self) -> (jobs: Vec<ExtractJob>)
        requires
            self.selected@.len() > 0,
        ensures
            jobs@.len() == self.selected@.len(),
            exists|prefix: Seq<Seq<char>>| {
                &&& is_longest_common_prefix(prefix, parents_of(self.selected@))
                &&& forall|i: int| 0 <= i < jobs@.len() ==> {
                    &&& (#[trigger] jobs@[i]).source@ == self.selected@[i].path@
                    &&& jobs@[i].target@ == self.selected@[i].path@.skip(prefix.len() as int)
                    &&& prefix + jobs@[i].target@ == self.selected@[i].path@
                }
            },
    {
        let prefix = self.common_prefix();
        let n = self.selected.len();
        let mut jobs: Vec<ExtractJob> = Vec::new();
        let mut i: usize = 0;
        while i < n
            invariant
                n == self.selected@.len(),
                n > 0,
                i <= n,
                jobs@.len() == i,
                is_longest_common_prefix(prefix@, parents_of(self.selected@)),
                forall|j: int| 0 <= j < i ==> {
                    &&& (#[trigger] jobs@[j]).source@ == self.selected@[j].path@
                    &&& jobs@[j].target@ == self.selected@[j].path@.skip(prefix@.len() as int)
                    &&& prefix@ + jobs@[j].target@ == self.selected@[j].path@
                },
            decreases n - i,
        {
            let file = &self.selected[i];
            let ghost ps = parents_of(self.selected@);
            assert(is_prefix(prefix@, ps[i as int]));
            assert(file.path@.take(prefix@.len() as int) =~= ps[i as int].take(prefix@.len() as int));
            let target = match file.path.strip_prefix(&prefix) {
                Some(rest) => rest,
                None => file.path.duplicate(),
            };
            assert(prefix@ + target@ =~= file.path@);
            jobs.push(ExtractJob { source: file.path.duplicate(), target });
            i = i + 1;
        }
        jobs
    }

    /// Where the preview of the first selected file comes from.
    pub fn preview_source(&self) -> (s: PreviewSource)
        requires
            self.selected@.len() > 0,
        ensures
            s == preview_source_of(*self),
            s == PreviewSource::Held <==> (self.preview matches Some(p) && p@ == self.selected@[0].path@),
            s == PreviewSource::Read <==> (!(self.preview matches Some(p) && p@ == self.selected@[0].path@)
                && self.loaded),
            s == PreviewSource::Unavailable <==> (!(self.preview matches Some(p) && p@
                == self.selected@[0].path@) && !self.loaded),
    {
        if let Some(p) = &self.preview {
            if p.same_as(&self.selected[0].path) {
                return PreviewSource::Held;
            }
        }
        if self.loaded {
            PreviewSource::Read
        } else {
            PreviewSource::Unavailable
        }
    }

    /// Holds the image of the first selected file as the preview; gives back
    /// the path of the preview it replaces, whose image is to be forgotten.
    pub fn hold_preview(&mut self) -> (old_preview: Option<PathParts>)
        requires
            old(self).selected@.len() > 0,
        ensures
            final(self).preview matches Some(p) && p@ == old(self).selected@[0].path@,
            old_preview == old(self).preview,
            final(self).loaded == old(self).loaded,
            final(self).tree == old(self).tree,
            final(self).selected == old(self).selected,
            final(self).bigfile_modal == old(self).bigfile_modal,
            final(self).error_modal == old(self).error_modal,
            final(self).extract_modal == old(self).extract_modal,
    {
        let p = self.selected[0].path.duplicate();
        let previous = self.preview.take();
        self.preview = Some(p);
        previous
    }

    /// The open dialogs with their texts, in the order they are drawn:
    /// the error first, then the load question, then the extract report.
    pub fn open_modals(&self) -> (v: Vec<(Modal, String)>)
        ensures
            v@.len() == (if self.error_modal is Some { 1int } else { 0int }) + (if self.bigfile_modal is Some {
                1int
            } else {
                0int
            }) + (if self.extract_modal is Some { 1int } else { 0int }),
            forall|i: int| 0 <= i < v@.len() ==> match (#[trigger] v@[i]).0 {
                Modal::Error => opt_view(self.error_modal) == Some(v@[i].1@),
                Modal::Bigfile => opt_view(self.bigfile_modal) == Some(v@[i].1@),
                Modal::Extract => opt_view(self.extract_modal) == Some(v@[i].1@),
            },
            forall|i: int, j: int| 0 <= i < j < v@.len() ==> modal_rank(#[trigger] v@[i].0) < modal_rank(#[trigger] v@[j].0),
    {
        let mut v: Vec<(Modal, String)> = Vec::new();
        if let Some(t) = &self.error_modal {
            v.push((Modal::Error, t.clone()));
        }
        if let Some(t) = &self.bigfile_modal {
            v.push((Modal::Bigfile, t.clone()));
        }
        if let Some(t) = &self.extract_modal {
            v.push((Modal::Extract, t.clone()));
        }
        v
    }
}

/// Whether the action can be used in this state.
pub open spec fn allows(app: App, action: Action) -> bool {
    match action {
        Action::Open => true,
        Action::Close => app.loaded,
        Action::ExtractAll => app.loaded,
        Action::ExtractSelected => app.selected@.len() > 0,
    }
}

/// Whether a file with number `id` is selected.
pub open spec fn selects(app: App, id: u64) -> bool {
    exists|i: int| 0 <= i < app.selected@.len() && #[trigger] app.selected@[i].id == id
}

/// Where the preview of the first selected file comes from in this state.
pub open spec fn preview_source_of(app: App) -> PreviewSource {
    if app.preview matches Some(p) && p@ == app.selected@[0].path@ {
        PreviewSource::Held
    } else if app.loaded {
        PreviewSource::Read
    } else {
        PreviewSource::Unavailable
    }
}

/// With no bigfile loaded and nothing selected, as after closing, only
/// opening a bigfile can be asked for.
pub proof fn lemma_closed_allows_only_open(app: App, action: Action)
    requires
        !app.loaded,
        app.selected@.len() == 0,
    ensures
        allows(app, action) <==> action == Action::Open,
{
}

/// A clicked file is selected afterwards, whether it joined the selection
/// or replaced it.
pub proof fn lemma_clicked_file_is_selected(app: App, file: File)
    requires
        app.selected@.len() > 0,
        app.selected@.last()@ == file@,
    ensures
        selects(app, file.id),
{
    assert(app.selected@[app.selected@.len() - 1].id == file.id);
}

/// Once the preview of the first selected file is held, it is used as long
/// as that file stays first in the selection.
pub proof fn lemma_held_preview_is_used(app: App)
    requires
        app.selected@.len() > 0,
        app.preview matches Some(p) && p@ == app.selected@[0].path@,
    ensures
        preview_source_of(app) == PreviewSource::Held,
{
}

/// The parent of each selected file stands at its place: the parent
/// directories that the common prefix is taken over are those of the files,
/// one for each file, each the file's path without its last component.
pub proof fn lemma_parents_of(s: Seq<File>)
    ensures
        parents_of(s).len() == s.len(),
        forall|i: int| 0 <= i < s.len() ==> #[trigger] parents_of(s)[i] == parent_of(s[i].path@),
        forall|i: int| 0 <= i < s.len() && s[i].path@.len() > 0 ==> #[trigger] parents_of(s)[i].push(s[i].path@.last())
            == s[i].path@,
{
    assert forall|i: int| 0 <= i < s.len() && s[i].path@.len() > 0 implies #[trigger] parents_of(s)[i].push(
        s[i].path@.last(),
    ) == s[i].path@ by {
        assert(parents_of(s)[i].push(s[i].path@.last()) =~= s[i].path@);
    }
}

/// With one file selected, the common directory is that file's own
/// directory, so the file is extracted under its name alone.
pub proof fn lemma_single_selection_prefix(s: Seq<File>, r: Seq<Seq<char>>)
    requires
        s.len() == 1,
        s[0].path@.len() > 0,
        is_longest_common_prefix(r, parents_of(s)),
    ensures
        r == s[0].path@.drop_last(),
        s[0].path@.skip(r.len() as int) == seq![s[0].path@.last()],
{
    lemma_parents_of(s);
    let ps = parents_of(s);
    assert(is_prefix(r, ps[0]));
    let k = choose|i: int| 0 <= i < ps.len() && (#[trigger] ps[i].len() == r.len() || ps[i][r.len() as int] != ps[0][r.len() as int]);
    assert(k == 0);
    assert(r =~= ps[0].take(r.len() as int));
    assert(ps[0].take(r.len() as int) =~= ps[0]);
    assert(s[0].path@.skip(r.len() as int) =~= seq![s[0].path@.last()]);
}

/// Every file of the selection counts as selected, not only the last one
/// clicked; and a number counts as selected only where a selected file has
/// it.
pub proof fn lemma_selection_membership(app: App, id: u64)
    ensures
        forall|i: int| 0 <= i < app.selected@.len() ==> selects(app, #[trigger] app.selected@[i].id),
        selects(app, id) ==> exists|i: int| 0 <= i < app.selected@.len() && #[trigger] app.selected@[i].id == id,
{
    assert forall|i: int| 0 <= i < app.selected@.len() implies selects(app, #[trigger] app.selected@[i].id) by {
        assert(app.selected@[i].id == app.selected@[i].id);
    }
}

/// Closing and extracting everything go with a loaded bigfile alone,
/// whatever is selected; extracting the selection goes with a non-empty
/// selection alone, whether or not a bigfile is loaded; opening always goes.
pub proof fn lemma_allows_depends_on(a: App, b: App)
    ensures
        allows(a, Action::Open),
        allows(a, Action::Close) == a.loaded,
        allows(a, Action::ExtractAll) == a.loaded,
        allows(a, Action::ExtractSelected) == (a.selected@.len() > 0),
        a.loaded == b.loaded ==> allows(a, Action::ExtractAll) == allows(b, Action::ExtractAll)
            && allows(a, Action::Close) == allows(b, Action::Close),
        a.selected@.len() == b.selected@.len() ==> allows(a, Action::ExtractSelected) == allows(
            b,
            Action::ExtractSelected,
        ),
{
}

/// The held image is used only for the very path it was read for,
/// component by component; any other first selected file is read afresh
/// while a bigfile is loaded.
pub proof fn lemma_preview_source_meaning(app: App)
    requires
        app.selected@.len() > 0,
    ensures
        preview_source_of(app) == PreviewSource::Held ==> (app.preview matches Some(p) && p@
            == app.selected@[0].path@),
        (app.preview is None || app.preview.unwrap()@ != app.selected@[0].path@) ==> preview_source_of(app)
            == if app.loaded {
            PreviewSource::Read
        } else {
            PreviewSource::Unavailable
        },
{
}

/// The order in which the dialogs are drawn.
pub open spec fn modal_rank(m: Modal) -> int {
    match m {
        Modal::Error => 0,
        Modal::Bigfile => 1,
        Modal::Extract => 2,
    }
}

} // verus!
