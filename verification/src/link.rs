//! Directory links in the folders of a workspace.
//!
//! A folder is worked on as the list of what stands in it; each operation gives back the
//! steps that bring the folder on disk to the same state.

use crate::path::{join_path, joined_path, path_eq, paths_equal};
use crate::sorted::{KeyOrder, SortedMap};
use crate::text::{same, text_lt, texts};
use crate::workspace::WorkspaceError;
use vstd::prelude::*;

verus! {

/// The visible link name placed inside a workspace folder.
pub const LINK_NAME: &'static str = "kb";

/// The hidden name that the link had before; see [`migrate_legacy`].
pub const LEGACY_LINK_NAME: &'static str = ".looper";

/// The path of the `kb` link inside `folder`.
pub fn link_path(folder: &str) -> (r: String)
    ensures
        r@ == joined_path(folder@, "kb"@),
{
    join_path(folder, LINK_NAME)
}

/// The state of a folder's link relative to an expected target.
#[derive(Debug, Clone, Copy, PartialEq, Eq, Structural)]
pub enum LinkState {
    /// The link exists and points at the expected directory.
    Linked,
    /// No entry exists.
    Missing,
    /// The link points somewhere else.
    Mismatched,
    /// The path exists but is a real file or directory (not our link).
    Occupied,
}

/// What stands in a folder under a name.
#[derive(Debug, Clone, PartialEq, Eq)]
pub enum DirEntry {
    /// A file or a directory.
    Real,
    /// A directory link, with the path it points at where that can be read.
    Link(Option<String>),
}

/// What stands in a folder under a name, as a value.
pub enum Standing {
    Real,
    Link(Option<Seq<char>>),
}

impl DirEntry {
    pub open spec fn view(&self) -> Standing {
        match self {
            DirEntry::Real => Standing::Real,
            DirEntry::Link(None) => Standing::Link(None),
            DirEntry::Link(Some(t)) => Standing::Link(Some(t@)),
        }
    }
}

/// Whether two paths are one place: what they resolve to where both do, else the paths
/// themselves. `canonical` gives what each path that resolves resolves to.
pub open spec fn same_place(canonical: SortedMap<String>, a: Seq<char>, b: Seq<char>) -> bool {
    match (canonical.lookup(a), canonical.lookup(b)) {
        (Some(x), Some(y)) => path_eq(x@, y@),
        _ => path_eq(a, b),
    }
}

/// A folder: what stands in it, and which paths resolve where.
pub struct Folder {
    /// Where the folder is.
    pub path: String,
    /// What stands in it, by name.
    pub entries: SortedMap<DirEntry>,
    /// Of the paths that are compared, those that resolve, with what they resolve to.
    pub canonical: SortedMap<String>,
}

/// A change to a folder on disk.
#[derive(Debug, Clone, PartialEq, Eq)]
pub enum LinkStep {
    /// Create the link `name` to the directory `target`.
    Create { name: String, target: String },
    /// Remove the link `name`.
    Remove { name: String },
}

/// A change to a folder, as a value.
pub enum Step {
    Create(Seq<char>, Seq<char>),
    Remove(Seq<char>),
}

impl LinkStep {
    pub open spec fn view(&self) -> Step {
        match self {
            LinkStep::Create { name, target } => Step::Create(name@, target@),
            LinkStep::Remove { name } => Step::Remove(name@),
        }
    }
}

/// The values of a list of steps.
pub open spec fn steps(s: Seq<LinkStep>) -> Seq<Step> {
    s.map_values(|x: LinkStep| x.view())
}

/// The state of the link `name` in a folder with contents `m`.
pub open spec fn state_in(
    m: Map<Seq<char>, Standing>,
    canonical: SortedMap<String>,
    name: Seq<char>,
    target: Seq<char>,
) -> LinkState {
    if !m.dom().contains(name) {
        LinkState::Missing
    } else {
        match m[name] {
            Standing::Link(Some(t)) => if same_place(canonical, t, target) {
                LinkState::Linked
            } else {
                LinkState::Mismatched
            },
            _ => LinkState::Occupied,
        }
    }
}

/// The contents after the link `name` has been made to point at `target`.
pub open spec fn with_link(
    m: Map<Seq<char>, Standing>,
    canonical: SortedMap<String>,
    name: Seq<char>,
    target: Seq<char>,
) -> Map<Seq<char>, Standing> {
    match state_in(m, canonical, name, target) {
        LinkState::Missing | LinkState::Mismatched => m.insert(name, Standing::Link(Some(target))),
        _ => m,
    }
}

/// The steps that make the link `name` point at `target`.
pub open spec fn link_steps(
    m: Map<Seq<char>, Standing>,
    canonical: SortedMap<String>,
    name: Seq<char>,
    target: Seq<char>,
) -> Seq<Step> {
    match state_in(m, canonical, name, target) {
        LinkState::Missing => seq![Step::Create(name, target)],
        LinkState::Mismatched => seq![Step::Remove(name), Step::Create(name, target)],
        _ => Seq::empty(),
    }
}

impl Folder {
    pub open spec fn wf(&self) -> bool {
        &&& self.entries.wf()
        &&& self.entries.order == KeyOrder::Text
        &&& self.canonical.wf()
        &&& self.canonical.order == KeyOrder::Text
    }

    /// What stands in the folder.
    pub open spec fn view(&self) -> Map<Seq<char>, Standing> {
        Map::new(
            |k: Seq<char>| self.entries.lookup(k) is Some,
            |k: Seq<char>| self.entries.lookup(k).unwrap().view(),
        )
    }

    /// Whether two paths are one place: what they resolve to where both do, else the paths
    /// themselves.
    pub fn same_path(&self, a: &str, b: &str) -> (r: bool)
        requires
            self.wf(),
        ensures
            r == same_place(self.canonical, a@, b@),
    {
        match (self.canonical.get(a), self.canonical.get(b)) {
            (Some(x), Some(y)) => paths_equal(x.as_str(), y.as_str()),
            _ => paths_equal(a, b),
        }
    }

    /// The state of the link `name` relative to `target`.
    pub fn state_named(&self, name: &str, target: &str) -> (r: LinkState)
        requires
            self.wf(),
        ensures
            r == state_in(self@, self.canonical, name@, target@),
    {
        match self.entries.get(name) {
            None => LinkState::Missing,
            Some(DirEntry::Link(Some(t))) => {
                if self.same_path(t.as_str(), target) {
                    LinkState::Linked
                } else {
                    LinkState::Mismatched
                }
            },
            Some(_) => LinkState::Occupied,
        }
    }

    fn link(&mut self, name: &str, target: &str)
        requires
            old(self).wf(),
        ensures
            final(self).wf(),
            final(self).path == old(self).path,
            final(self).canonical == old(self).canonical,
            final(self)@ == old(self)@.insert(name@, Standing::Link(Some(target@))),
    {
        self.entries.insert(name.to_owned(), DirEntry::Link(Some(target.to_owned())));
        assert(self@ =~= old(self)@.insert(name@, Standing::Link(Some(target@))));
    }

    fn unlink(&mut self, name: &str)
        requires
            old(self).wf(),
        ensures
            final(self).wf(),
            final(self).path == old(self).path,
            final(self).canonical == old(self).canonical,
            final(self)@ == old(self)@.remove(name@),
    {
        let gone = self.entries.remove(name);
        assert(self@ =~= old(self)@.remove(name@));
    }

    /// Makes the link `name` point at `target`, creating or repairing it as needed; what is
    /// no link of ours is left alone and refused.
    pub fn ensure_named(&mut self, name: &str, target: &str, out: &mut Vec<LinkStep>) -> (r: Result<
        LinkState,
        WorkspaceError,
    >)
        requires
            old(self).wf(),
        ensures
            final(self).wf(),
            final(self).path == old(self).path,
            final(self).canonical == old(self).canonical,
            final(self)@ == with_link(old(self)@, old(self).canonical, name@, target@),
            steps(final(out)@) == steps(old(out)@) + link_steps(
                old(self)@,
                old(self).canonical,
                name@,
                target@,
            ),
            match r {
                Ok(s) => s == LinkState::Linked && state_in(
                    old(self)@,
                    old(self).canonical,
                    name@,
                    target@,
                ) != LinkState::Occupied,
                Err(e) => state_in(old(self)@, old(self).canonical, name@, target@)
                    == LinkState::Occupied && (e matches WorkspaceError::LinkOccupied(p) && p@
                    == joined_path(old(self).path@, name@)),
            },
    {
        let ghost before = steps(out@);
        match self.state_named(name, target) {
            LinkState::Linked => {
                assert(steps(out@) =~= before + Seq::<Step>::empty());
                Ok(LinkState::Linked)
            },
            LinkState::Missing => {
                self.link(name, target);
                out.push(LinkStep::Create { name: name.to_owned(), target: target.to_owned() });
                assert(steps(out@) =~= before + seq![Step::Create(name@, target@)]);
                Ok(LinkState::Linked)
            },
            LinkState::Mismatched => {
                self.unlink(name);
                out.push(LinkStep::Remove { name: name.to_owned() });
                self.link(name, target);
                out.push(LinkStep::Create { name: name.to_owned(), target: target.to_owned() });
                assert(self@ =~= old(self)@.insert(name@, Standing::Link(Some(target@))));
                assert(steps(out@) =~= before + seq![
                    Step::Remove(name@),
                    Step::Create(name@, target@),
                ]);
                Ok(LinkState::Linked)
            },
            LinkState::Occupied => {
                assert(steps(out@) =~= before + Seq::<Step>::empty());
                Err(WorkspaceError::LinkOccupied(join_path(self.path.as_str(), name)))
            },
        }
    }

    /// Whether a path is one of the places in a list.
    fn is_known(&self, target: &str, known: &Vec<String>) -> (r: bool)
        requires
            self.wf(),
        ensures
            r == known_place(self.canonical, texts(known@), target@),
    {
        let mut i: usize = 0;
        while i < known.len()
            invariant
                self.wf(),
                i <= known@.len(),
                forall|k: int|
                    0 <= k < i ==> !same_place(
                        self.canonical,
                        target@,
                        #[trigger] texts(known@)[k],
                    ),
            decreases known.len() - i,
        {
            if self.same_path(target, known[i].as_str()) {
                assert(same_place(self.canonical, target@, texts(known@)[i as int]));
                return true;
            }
            i = i + 1;
        }
        false
    }

    /// Whether the entry at `i` is a link to one of the `known` places.
    fn links_to_known(&self, i: usize, known: &Vec<String>) -> (r: bool)
        requires
            self.wf(),
            i < self.entries.entries@.len(),
        ensures
            r == generated_in(
                self@,
                self.canonical,
                texts(known@),
                self.entries.entries@[i as int].0@,
            ),
            self@.dom().contains(self.entries.entries@[i as int].0@),
    {
        proof {
            let k = self.entries.entries@[i as int].0@;
            assert(self.entries.holds_at(k, i as int));
            self.entries.lemma_entry(k, i as int);
        }
        match &self.entries.entries[i].1 {
            DirEntry::Link(Some(t)) => self.is_known(t.as_str(), known),
            _ => false,
        }
    }
}

/// Whether a path is one of the places in a list.
pub open spec fn known_place(
    canonical: SortedMap<String>,
    known: Seq<Seq<char>>,
    target: Seq<char>,
) -> bool {
    exists|k: int| 0 <= k < known.len() && same_place(canonical, target, #[trigger] known[k])
}

/// Whether the entry `name` is a link to one of the `known` places.
pub open spec fn generated_in(
    m: Map<Seq<char>, Standing>,
    canonical: SortedMap<String>,
    known: Seq<Seq<char>>,
    name: Seq<char>,
) -> bool {
    m.dom().contains(name) && match m[name] {
        Standing::Link(Some(t)) => known_place(canonical, known, t),
        _ => false,
    }
}

/// Inspects the `kb` link in `folder` relative to `kb_dir`.
pub fn state(folder: &Folder, kb_dir: &str) -> (r: LinkState)
    requires
        folder.wf(),
    ensures
        r == state_in(folder@, folder.canonical, "kb"@, kb_dir@),
{
    folder.state_named(LINK_NAME, kb_dir)
}

/// Makes `folder`'s `kb` link point at `kb_dir`, creating or repairing it as needed.
pub fn ensure(folder: &mut Folder, kb_dir: &str, out: &mut Vec<LinkStep>) -> (r: Result<
    LinkState,
    WorkspaceError,
>)
    requires
        old(folder).wf(),
    ensures
        final(folder).wf(),
        final(folder).path == old(folder).path,
        final(folder).canonical == old(folder).canonical,
        final(folder)@ == with_link(old(folder)@, old(folder).canonical, "kb"@, kb_dir@),
        steps(final(out)@) == steps(old(out)@) + link_steps(
            old(folder)@,
            old(folder).canonical,
            "kb"@,
            kb_dir@,
        ),
        match r {
            Ok(s) => s == LinkState::Linked && state_in(
                old(folder)@,
                old(folder).canonical,
                "kb"@,
                kb_dir@,
            ) != LinkState::Occupied,
            Err(e) => state_in(old(folder)@, old(folder).canonical, "kb"@, kb_dir@)
                == LinkState::Occupied && (e matches WorkspaceError::LinkOccupied(p) && p@
                == joined_path(old(folder).path@, "kb"@)),
        },
{
    folder.ensure_named(LINK_NAME, kb_dir, out)
}

/// Removes `folder`'s `kb` link. A no-op if it is missing; a real file or directory is
/// refused.
pub fn remove(folder: &mut Folder, out: &mut Vec<LinkStep>) -> (r: Result<(), WorkspaceError>)
    requires
        old(folder).wf(),
    ensures
        final(folder).wf(),
        final(folder).path == old(folder).path,
        final(folder).canonical == old(folder).canonical,
        match r {
            Ok(()) => final(folder)@ == old(folder)@.remove("kb"@) && steps(final(out)@) == if old(
                folder,
            )@.dom().contains("kb"@) {
                steps(old(out)@).push(Step::Remove("kb"@))
            } else {
                steps(old(out)@)
            },
            Err(e) => final(folder)@ == old(folder)@ && steps(final(out)@) == steps(old(out)@) && (
            e matches WorkspaceError::LinkOccupied(p) && p@ == joined_path(
                old(folder).path@,
                "kb"@,
            )),
        },
        r is Err == (old(folder)@.dom().contains("kb"@) && old(folder)@["kb"@] is Real),
{
    let ghost before = steps(out@);
    match folder.entries.get(LINK_NAME) {
        None => {
            assert(folder@ =~= folder@.remove("kb"@));
            Ok(())
        },
        Some(DirEntry::Link(_)) => {
            folder.unlink(LINK_NAME);
            out.push(LinkStep::Remove { name: LINK_NAME.to_owned() });
            assert(steps(out@) =~= before.push(Step::Remove("kb"@)));
            Ok(())
        },
        Some(DirEntry::Real) => Err(
            WorkspaceError::LinkOccupied(join_path(folder.path.as_str(), LINK_NAME)),
        ),
    }
}

/// A link to have in a folder: its name there, and the directory that it points at.
#[derive(Debug, Clone, PartialEq, Eq)]
pub struct DesiredLink {
    pub name: String,
    pub target: String,
}

/// The names and the targets of a list of links.
pub open spec fn wanted(desired: Seq<DesiredLink>) -> Seq<(Seq<char>, Seq<char>)> {
    desired.map_values(|d: DesiredLink| (d.name@, d.target@))
}

/// What [`reconcile`] left in place and what it took out.
#[derive(Debug, Clone, PartialEq, Eq)]
pub struct ReconcileOutcome {
    /// Names of the desired links, which are now present.
    pub linked: Vec<String>,
    /// Names of links of ours that were removed because they are no longer desired.
    pub removed: Vec<String>,
}

/// A folder's contents with links ensured one by one, the steps for that, and the name
/// at which it stopped because something else stands there.
pub struct Ensured {
    pub contents: Map<Seq<char>, Standing>,
    pub steps: Seq<Step>,
    pub stuck: Option<Seq<char>>,
}

/// Ensuring a list of links in a folder, in their order, as far as it goes.
pub open spec fn ensured(
    m: Map<Seq<char>, Standing>,
    canonical: SortedMap<String>,
    links: Seq<(Seq<char>, Seq<char>)>,
) -> Ensured
    decreases links.len(),
{
    if links.len() == 0 {
        Ensured { contents: m, steps: Seq::empty(), stuck: None }
    } else {
        let before = ensured(m, canonical, links.drop_last());
        let (name, target) = links.last();
        if before.stuck is Some {
            before
        } else if state_in(before.contents, canonical, name, target) == LinkState::Occupied {
            Ensured { stuck: Some(name), ..before }
        } else {
            Ensured {
                contents: with_link(before.contents, canonical, name, target),
                steps: before.steps + link_steps(before.contents, canonical, name, target),
                stuck: None,
            }
        }
    }
}

/// Whether a name is that of a desired link.
pub open spec fn is_wanted(links: Seq<(Seq<char>, Seq<char>)>, name: Seq<char>) -> bool {
    exists|i: int| 0 <= i < links.len() && (#[trigger] links[i]).0 == name
}

/// Whether a link is ours and no longer desired.
pub open spec fn is_stale(
    m: Map<Seq<char>, Standing>,
    canonical: SortedMap<String>,
    links: Seq<(Seq<char>, Seq<char>)>,
    known: Seq<Seq<char>>,
    name: Seq<char>,
) -> bool {
    generated_in(m, canonical, known, name) && !is_wanted(links, name)
}

/// Whether a list holds exactly the names of the links that are ours and no longer
/// desired, in their order and each once.
pub open spec fn lists_stale(
    removed: Seq<Seq<char>>,
    m: Map<Seq<char>, Standing>,
    canonical: SortedMap<String>,
    links: Seq<(Seq<char>, Seq<char>)>,
    known: Seq<Seq<char>>,
) -> bool {
    &&& forall|i: int, j: int|
        0 <= i < j < removed.len() ==> text_lt(#[trigger] removed[i], #[trigger] removed[j])
    &&& forall|n: Seq<char>|
        #[trigger] removed.contains(n) == is_stale(m, canonical, links, known, n)
}

/// A folder's contents without some names.
pub open spec fn without_names(m: Map<Seq<char>, Standing>, names: Seq<Seq<char>>) -> Map<
    Seq<char>,
    Standing,
> {
    m.remove_keys(names.to_set())
}

/// Whether `folder` holds a link to one of the `known_targets`.
pub fn has_generated_link(folder: &Folder, known_targets: &Vec<String>) -> (r: bool)
    requires
        folder.wf(),
    ensures
        r == exists|n: Seq<char>|
            generated_in(folder@, folder.canonical, texts(known_targets@), n),
{
    let ghost known = texts(known_targets@);
    let mut i: usize = 0;
    while i < folder.entries.entries.len()
        invariant
            folder.wf(),
            known == texts(known_targets@),
            i <= folder.entries.entries@.len(),
            forall|k: int|
                0 <= k < i ==> !generated_in(
                    folder@,
                    folder.canonical,
                    known,
                    (#[trigger] folder.entries.entries@[k]).0@,
                ),
        decreases folder.entries.entries.len() - i,
    {
        if folder.links_to_known(i, known_targets) {
            return true;
        }
        i = i + 1;
    }
    proof {
        assert forall|n: Seq<char>| !generated_in(folder@, folder.canonical, known, n) by {
            if folder@.dom().contains(n) {
                let k = choose|k: int| folder.entries.holds_at(n, k);
                assert(folder.entries.entries@[k].0@ == n);
            }
        }
    }
    false
}

fn name_wanted(desired: &Vec<DesiredLink>, name: &str) -> (r: bool)
    ensures
        r == is_wanted(wanted(desired@), name@),
{
    let mut i: usize = 0;
    while i < desired.len()
        invariant
            i <= desired@.len(),
            forall|k: int| 0 <= k < i ==> (#[trigger] wanted(desired@)[k]).0 != name@,
        decreases desired.len() - i,
    {
        if same(desired[i].name.as_str(), name) {
            assert(wanted(desired@)[i as int].0 == name@);
            return true;
        }
        i = i + 1;
    }
    false
}

/// The names of the links that are ours and no longer desired.
fn stale_names(folder: &Folder, desired: &Vec<DesiredLink>, known: &Vec<String>) -> (r: Vec<
    String,
>)
    requires
        folder.wf(),
    ensures
        lists_stale(
            texts(r@),
            folder@,
            folder.canonical,
            wanted(desired@),
            texts(known@),
        ),
{
    let ghost links = wanted(desired@);
    let ghost places = texts(known@);
    let ghost all = folder.entries.entries@;
    let mut out: Vec<String> = Vec::new();
    let mut i: usize = 0;
    while i < folder.entries.entries.len()
        invariant
            folder.wf(),
            links == wanted(desired@),
            places == texts(known@),
            all == folder.entries.entries@,
            i <= all.len(),
            forall|a: int, b: int|
                0 <= a < b < out@.len() ==> text_lt(
                    #[trigger] texts(out@)[a],
                    #[trigger] texts(out@)[b],
                ),
            forall|a: int, k: int|
                0 <= a < out@.len() && i <= k < all.len() ==> text_lt(
                    #[trigger] texts(out@)[a],
                    (#[trigger] all[k]).0@,
                ),
            forall|a: int|
                0 <= a < out@.len() ==> is_stale(
                    folder@,
                    folder.canonical,
                    links,
                    places,
                    #[trigger] texts(out@)[a],
                ),
            forall|k: int|
                0 <= k < i && is_stale(
                    folder@,
                    folder.canonical,
                    links,
                    places,
                    (#[trigger] all[k]).0@,
                ) ==> texts(out@).contains(all[k].0@),
        decreases all.len() - i,
    {
        let ghost before = texts(out@);
        let name = folder.entries.entries[i].0.as_str();
        let ours = folder.links_to_known(i, known);
        if ours && !name_wanted(desired, name) {
            out.push(name.to_owned());
            proof {
                assert(texts(out@) =~= before.push(all[i as int].0@));
                assert forall|k: int|
                    0 <= k < i + 1 && is_stale(
                        folder@,
                        folder.canonical,
                        links,
                        places,
                        (#[trigger] all[k]).0@,
                    ) implies texts(out@).contains(all[k].0@) by {
                    if k < i {
                        let a = choose|a: int| 0 <= a < before.len() && before[a] == all[k].0@;
                        assert(texts(out@)[a] == all[k].0@);
                    } else {
                        assert(texts(out@)[before.len() as int] == all[k].0@);
                    }
                }
            }
        }
        i = i + 1;
    }
    proof {
        assert forall|n: Seq<char>|
            #[trigger] texts(out@).contains(n) == is_stale(
                folder@,
                folder.canonical,
                links,
                places,
                n,
            ) by {
            if is_stale(folder@, folder.canonical, links, places, n) {
                let k = choose|k: int| folder.entries.holds_at(n, k);
                assert(all[k].0@ == n);
            }
        }
    }
    out
}

/// Reconciles the links of ours in a folder to exactly `desired`.
///
/// Every desired link is created or repaired, in order; then each link to one of the
/// `known_targets` that is not desired is removed. A real file or directory, and a link to
/// anything else, is never touched. Where something else stands at a desired name, the
/// reconciliation stops there. Gives the steps for the folder on disk.
pub fn reconcile(
    folder: &mut Folder,
    desired: &Vec<DesiredLink>,
    known_targets: &Vec<String>,
    out: &mut Vec<LinkStep>,
) -> (r: Result<ReconcileOutcome, WorkspaceError>)
    requires
        old(folder).wf(),
    ensures
        final(folder).wf(),
        final(folder).path == old(folder).path,
        final(folder).canonical == old(folder).canonical,
        ({
            let done = ensured(old(folder)@, old(folder).canonical, wanted(desired@));
            match r {
                Ok(o) => {
                    &&& done.stuck is None
                    &&& texts(o.linked@) == wanted(desired@).map_values(
                        |p: (Seq<char>, Seq<char>)| p.0,
                    )
                    &&& lists_stale(
                        texts(o.removed@),
                        done.contents,
                        old(folder).canonical,
                        wanted(desired@),
                        texts(known_targets@),
                    )
                    &&& final(folder)@ == without_names(done.contents, texts(o.removed@))
                    &&& steps(final(out)@) == steps(old(out)@) + done.steps + texts(
                        o.removed@,
                    ).map_values(|n: Seq<char>| Step::Remove(n))
                },
                Err(e) => {
                    &&& done.stuck is Some
                    &&& e matches WorkspaceError::LinkOccupied(p) && p@ == joined_path(
                        old(folder).path@,
                        done.stuck.unwrap(),
                    )
                    &&& final(folder)@ == done.contents
                    &&& steps(final(out)@) == steps(old(out)@) + done.steps
                },
            }
        }),
{
    let ghost start = folder@;
    let ghost canonical = folder.canonical;
    let ghost links = wanted(desired@);
    let ghost first = steps(out@);
    let ghost names = links.map_values(|p: (Seq<char>, Seq<char>)| p.0);
    let mut linked: Vec<String> = Vec::new();
    let mut i: usize = 0;
    assert(links.take(0) =~= Seq::empty());
    assert(first + Seq::<Step>::empty() =~= first);
    while i < desired.len()
        invariant
            folder.wf(),
            folder.path == old(folder).path,
            folder.canonical == canonical,
            old(folder).canonical == canonical,
            old(folder)@ == start,
            links == wanted(desired@),
            names == links.map_values(|p: (Seq<char>, Seq<char>)| p.0),
            i <= desired@.len(),
            first == steps(old(out)@),
            ensured(start, canonical, links.take(i as int)).stuck is None,
            folder@ == ensured(start, canonical, links.take(i as int)).contents,
            steps(out@) == first + ensured(start, canonical, links.take(i as int)).steps,
            texts(linked@) == names.take(i as int),
        decreases desired.len() - i,
    {
        let ghost before = ensured(start, canonical, links.take(i as int));
        let ghost now = folder@;
        let ghost listed = texts(linked@);
        proof {
            assert(links.take(i + 1).drop_last() =~= links.take(i as int));
            assert(links.take(i + 1).last() == links[i as int]);
        }
        let name = desired[i].name.as_str();
        match folder.ensure_named(name, desired[i].target.as_str(), out) {
            Ok(_) => {},
            Err(e) => {
                proof {
                    assert(before.steps + Seq::<Step>::empty() =~= before.steps);
                    assert(first + before.steps + Seq::<Step>::empty() =~= first + before.steps);
                    lemma_stays_stuck(start, canonical, links, i + 1);
                    assert(links.take(links.len() as int) =~= links);
                }
                return Err(e);
            },
        }
        linked.push(desired[i].name.clone());
        proof {
            let more = link_steps(before.contents, canonical, links[i as int].0, links[i as int].1);
            assert(first + before.steps + more =~= first + (before.steps + more));
            assert(texts(linked@) =~= listed.push(names[i as int]));
            assert(names.take(i + 1) =~= names.take(i as int).push(names[i as int]));
        }
        i = i + 1;
    }
    let ghost done = ensured(start, canonical, links);
    proof {
        assert(links.take(links.len() as int) =~= links);
        assert(names.take(links.len() as int) =~= names);
    }
    let removed = stale_names(folder, desired, known_targets);
    let ghost gone = texts(removed@);
    let ghost second = steps(out@);
    let ghost f = |n: Seq<char>| Step::Remove(n);
    let mut k: usize = 0;
    proof {
        assert(second + gone.map_values(f).take(0) =~= second);
        assert(done.contents.remove_keys(gone.take(0).to_set()) =~= done.contents);
    }
    while k < removed.len()
        invariant
            folder.wf(),
            folder.path == old(folder).path,
            folder.canonical == canonical,
            gone == texts(removed@),
            f == (|n: Seq<char>| Step::Remove(n)),
            k <= removed@.len(),
            folder@ == done.contents.remove_keys(gone.take(k as int).to_set()),
            steps(out@) == second + gone.map_values(f).take(k as int),
        decreases removed.len() - k,
    {
        let ghost now = steps(out@);
        folder.unlink(removed[k].as_str());
        out.push(LinkStep::Remove { name: removed[k].clone() });
        proof {
            let part = gone.take(k as int);
            let more = gone.take(k + 1);
            assert(more =~= part.push(gone[k as int]));
            assert(more.to_set() =~= part.to_set().insert(gone[k as int])) by {
                assert forall|n: Seq<char>| more.to_set().contains(n) == part.to_set().insert(
                    gone[k as int],
                ).contains(n) by {
                    if part.contains(n) {
                        let a = choose|a: int| 0 <= a < part.len() && part[a] == n;
                        assert(more[a] == n);
                    }
                    assert(more[k as int] == gone[k as int]);
                    if more.contains(n) && n != gone[k as int] {
                        let a = choose|a: int| 0 <= a < more.len() && more[a] == n;
                        assert(part[a] == n);
                    }
                }
            }
            assert(folder@ =~= done.contents.remove_keys(more.to_set()));
            assert(steps(out@) =~= now.push(Step::Remove(gone[k as int])));
            assert(gone.map_values(f).take(k + 1) =~= gone.map_values(f).take(k as int).push(
                Step::Remove(gone[k as int]),
            ));
        }
        k = k + 1;
    }
    proof {
        assert(gone.take(gone.len() as int) =~= gone);
        assert(gone.map_values(f).take(gone.len() as int) =~= gone.map_values(f));
    }
    Ok(ReconcileOutcome { linked, removed })
}

proof fn lemma_stays_stuck(
    m: Map<Seq<char>, Standing>,
    canonical: SortedMap<String>,
    links: Seq<(Seq<char>, Seq<char>)>,
    i: int,
)
    requires
        0 <= i <= links.len(),
        ensured(m, canonical, links.take(i)).stuck is Some,
    ensures
        ensured(m, canonical, links) == ensured(m, canonical, links.take(i)),
    decreases links.len() - i,
{
    if i < links.len() {
        assert(links.take(i + 1).drop_last() =~= links.take(i));
        lemma_stays_stuck(m, canonical, links, i + 1);
    } else {
        assert(links.take(i) =~= links);
    }
}

/// Moves a link of the hidden name to the visible one.
///
/// A `.looper` link is removed; where it pointed at `kb_dir`, a `kb` link takes its place.
/// A `.looper` that is a real file or directory, or absent, is left alone.
pub fn migrate_legacy(folder: &mut Folder, kb_dir: &str, out: &mut Vec<LinkStep>) -> (r: Result<
    (),
    WorkspaceError,
>)
    requires
        old(folder).wf(),
    ensures
        final(folder).wf(),
        final(folder).path == old(folder).path,
        final(folder).canonical == old(folder).canonical,
        ({
            let m = old(folder)@;
            let c = old(folder).canonical;
            let rest = m.remove(".looper"@);
            if !m.dom().contains(".looper"@) || m[".looper"@] is Real {
                r is Ok && final(folder)@ == m && steps(final(out)@) == steps(old(out)@)
            } else if state_in(m, c, ".looper"@, kb_dir@) == LinkState::Linked {
                &&& final(folder)@ == with_link(rest, c, "kb"@, kb_dir@)
                &&& steps(final(out)@) == steps(old(out)@) + seq![Step::Remove(".looper"@)]
                    + link_steps(rest, c, "kb"@, kb_dir@)
                &&& r is Err == (state_in(rest, c, "kb"@, kb_dir@) == LinkState::Occupied)
                &&& r matches Err(e) ==> (e matches WorkspaceError::LinkOccupied(p) && p@
                    == joined_path(old(folder).path@, "kb"@))
            } else {
                r is Ok && final(folder)@ == rest && steps(final(out)@) == steps(old(out)@) + seq![
                    Step::Remove(".looper"@),
                ]
            }
        }),
{
    let ghost first = steps(out@);
    let pointed_at_kb = match folder.entries.get(LEGACY_LINK_NAME) {
        None => {
            return Ok(());
        },
        Some(DirEntry::Real) => {
            return Ok(());
        },
        Some(DirEntry::Link(None)) => false,
        Some(DirEntry::Link(Some(t))) => folder.same_path(t.as_str(), kb_dir),
    };
    folder.unlink(LEGACY_LINK_NAME);
    out.push(LinkStep::Remove { name: LEGACY_LINK_NAME.to_owned() });
    assert(steps(out@) =~= first + seq![Step::Remove(".looper"@)]);
    if pointed_at_kb {
        match ensure(folder, kb_dir, out) {
            Ok(_) => Ok(()),
            Err(e) => Err(e),
        }
    } else {
        Ok(())
    }
}

// -------------------------------------------------------------------------- laws

/// Whether no two desired links have one name.
pub open spec fn names_differ(links: Seq<(Seq<char>, Seq<char>)>) -> bool {
    forall|i: int, j: int|
        0 <= i < j < links.len() ==> (#[trigger] links[i]).0 != (#[trigger] links[j]).0
}

proof fn lemma_ensured(
    m: Map<Seq<char>, Standing>,
    canonical: SortedMap<String>,
    links: Seq<(Seq<char>, Seq<char>)>,
)
    requires
        names_differ(links),
        ensured(m, canonical, links).stuck is None,
    ensures
        ({
            let now = ensured(m, canonical, links).contents;
            &&& forall|i: int|
                0 <= i < links.len() ==> state_in(
                    now,
                    canonical,
                    (#[trigger] links[i]).0,
                    links[i].1,
                ) == LinkState::Linked
            &&& forall|n: Seq<char>|
                !is_wanted(links, n) ==> (#[trigger] now.dom().contains(n)) == m.dom().contains(n)
            &&& forall|n: Seq<char>| !is_wanted(links, n) ==> #[trigger] now[n] == m[n]
        }),
    decreases links.len(),
{
    if links.len() > 0 {
        let rest = links.drop_last();
        assert forall|i: int, j: int| 0 <= i < j < rest.len() implies (#[trigger] rest[i]).0 != (
        #[trigger] rest[j]).0 by {
            assert(links[i].0 != links[j].0);
        }
        lemma_ensured(m, canonical, rest);
        let before = ensured(m, canonical, rest).contents;
        let now = ensured(m, canonical, links).contents;
        let (name, target) = links.last();
        assert(now == with_link(before, canonical, name, target));
        assert forall|i: int| 0 <= i < links.len() implies state_in(
            now,
            canonical,
            (#[trigger] links[i]).0,
            links[i].1,
        ) == LinkState::Linked by {
            if i < rest.len() {
                assert(rest[i] == links[i]);
                assert(links[i].0 != links[links.len() - 1].0);
            }
        }
        assert forall|n: Seq<char>| !is_wanted(links, n) implies !is_wanted(rest, n) && n
            != name by {
            if is_wanted(rest, n) {
                let i = choose|i: int| 0 <= i < rest.len() && (#[trigger] rest[i]).0 == n;
                assert(links[i].0 == n);
            }
            assert(links[links.len() - 1].0 == name);
        }
    }
}

/// A reconciliation that goes through leaves every desired link in place, no other link to
/// a known target, and whatever else stands in the folder as it was.
pub proof fn reconciling_links_what_is_desired(
    m: Map<Seq<char>, Standing>,
    canonical: SortedMap<String>,
    links: Seq<(Seq<char>, Seq<char>)>,
    known: Seq<Seq<char>>,
    removed: Seq<Seq<char>>,
)
    requires
        names_differ(links),
        ensured(m, canonical, links).stuck is None,
        lists_stale(removed, ensured(m, canonical, links).contents, canonical, links, known),
    ensures
        ({
            let now = without_names(ensured(m, canonical, links).contents, removed);
            &&& forall|i: int|
                0 <= i < links.len() ==> state_in(
                    now,
                    canonical,
                    (#[trigger] links[i]).0,
                    links[i].1,
                ) == LinkState::Linked
            &&& forall|n: Seq<char>|
                #[trigger] generated_in(now, canonical, known, n) ==> is_wanted(links, n)
            &&& forall|n: Seq<char>|
                !is_wanted(links, n) && !generated_in(m, canonical, known, n)
                    ==> (#[trigger] now.dom().contains(n)) == m.dom().contains(n) && (
                m.dom().contains(n) ==> now[n] == m[n])
        }),
{
    lemma_ensured(m, canonical, links);
    let done = ensured(m, canonical, links).contents;
    let now = without_names(done, removed);
    assert forall|n: Seq<char>| removed.to_set().contains(n) == is_stale(
        done,
        canonical,
        links,
        known,
        n,
    ) by {
        assert(removed.contains(n) == is_stale(done, canonical, links, known, n));
    }
    assert forall|i: int| 0 <= i < links.len() implies state_in(
        now,
        canonical,
        (#[trigger] links[i]).0,
        links[i].1,
    ) == LinkState::Linked by {
        let n = links[i].0;
        assert(is_wanted(links, n));
        assert(!removed.to_set().contains(n));
        assert(now.dom().contains(n) == done.dom().contains(n));
        assert(now.dom().contains(n) ==> now[n] == done[n]);
    }
    assert forall|n: Seq<char>| #[trigger] generated_in(now, canonical, known, n) implies is_wanted(
        links,
        n,
    ) by {
        assert(done.dom().contains(n));
        assert(now[n] == done[n]);
        assert(generated_in(done, canonical, known, n));
    }
    assert forall|n: Seq<char>|
        !is_wanted(links, n) && !generated_in(m, canonical, known, n) implies (
    #[trigger] now.dom().contains(n)) == m.dom().contains(n) && (m.dom().contains(n) ==> now[n]
        == m[n]) by {
        assert(done.dom().contains(n) == m.dom().contains(n));
        assert(done[n] == m[n]);
        assert(!generated_in(done, canonical, known, n));
    }
}

proof fn lemma_linked_needs_nothing(
    m: Map<Seq<char>, Standing>,
    canonical: SortedMap<String>,
    links: Seq<(Seq<char>, Seq<char>)>,
)
    requires
        forall|i: int|
            0 <= i < links.len() ==> state_in(m, canonical, (#[trigger] links[i]).0, links[i].1)
                == LinkState::Linked,
    ensures
        ensured(m, canonical, links) == (Ensured { contents: m, steps: Seq::empty(), stuck: None }),
    decreases links.len(),
{
    if links.len() > 0 {
        let rest = links.drop_last();
        assert forall|i: int| 0 <= i < rest.len() implies state_in(
            m,
            canonical,
            (#[trigger] rest[i]).0,
            rest[i].1,
        ) == LinkState::Linked by {
            assert(rest[i] == links[i]);
        }
        lemma_linked_needs_nothing(m, canonical, rest);
        assert(links[links.len() - 1] == links.last());
        assert(Seq::<Step>::empty() + Seq::<Step>::empty() =~= Seq::<Step>::empty());
    }
}

/// Reconciling a folder again changes nothing and takes no step.
pub proof fn reconciling_again_changes_nothing(
    m: Map<Seq<char>, Standing>,
    canonical: SortedMap<String>,
    links: Seq<(Seq<char>, Seq<char>)>,
    known: Seq<Seq<char>>,
    removed: Seq<Seq<char>>,
    again: Seq<Seq<char>>,
)
    requires
        names_differ(links),
        ensured(m, canonical, links).stuck is None,
        lists_stale(removed, ensured(m, canonical, links).contents, canonical, links, known),
        ({
            let now = without_names(ensured(m, canonical, links).contents, removed);
            lists_stale(again, ensured(now, canonical, links).contents, canonical, links, known)
        }),
    ensures
        ({
            let now = without_names(ensured(m, canonical, links).contents, removed);
            ensured(now, canonical, links) == (Ensured {
                contents: now,
                steps: Seq::empty(),
                stuck: None,
            })
        }),
        again.len() == 0,
{
    reconciling_links_what_is_desired(m, canonical, links, known, removed);
    let now = without_names(ensured(m, canonical, links).contents, removed);
    lemma_linked_needs_nothing(now, canonical, links);
    if again.len() > 0 {
        assert(again.contains(again[0]));
        assert(generated_in(now, canonical, known, again[0]));
    }
}

/// A real file or directory is never touched, whatever is desired.
pub proof fn real_entries_are_safe(
    m: Map<Seq<char>, Standing>,
    canonical: SortedMap<String>,
    links: Seq<(Seq<char>, Seq<char>)>,
    known: Seq<Seq<char>>,
    removed: Seq<Seq<char>>,
    name: Seq<char>,
)
    requires
        m.dom().contains(name),
        m[name] is Real,
        lists_stale(removed, ensured(m, canonical, links).contents, canonical, links, known),
    ensures
        ({
            let done = ensured(m, canonical, links).contents;
            let now = without_names(done, removed);
            &&& done.dom().contains(name) && done[name] is Real
            &&& now.dom().contains(name) && now[name] is Real
        }),
{
    lemma_real_stays(m, canonical, links, name);
    let done = ensured(m, canonical, links).contents;
    assert(removed.contains(name) == is_stale(done, canonical, links, known, name));
}

proof fn lemma_real_stays(
    m: Map<Seq<char>, Standing>,
    canonical: SortedMap<String>,
    links: Seq<(Seq<char>, Seq<char>)>,
    name: Seq<char>,
)
    requires
        m.dom().contains(name),
        m[name] is Real,
    ensures
        ensured(m, canonical, links).contents.dom().contains(name),
        ensured(m, canonical, links).contents[name] is Real,
    decreases links.len(),
{
    if links.len() > 0 {
        lemma_real_stays(m, canonical, links.drop_last(), name);
    }
}

} // verus!
