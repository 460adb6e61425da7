//! The command line: where a command gets its workspace from, what a new workspace must
//! have, and the lines that are printed.

use crate::activity::{change_label, change_name};
use crate::ipc::{EngineEvent, KbBackend, LinkingConfig, WorkspaceFolderCandidate};
use crate::json::{
    json, json_text, number_value, object, object_value, pairs_view, push_pair, string_value, write_json, Json,
};
use crate::path::{file_name, join_path, joined_path, name_of, path_eq, paths_equal};
use crate::text::{
    chars_of, decimal, decimal_of, pad_right, padded_right, same, starts, starts_with, string_of,
    texts, trim_white, trimmed, CharSet,
};
use crate::workspace::{
    base_id, created_as, is_first_free, is_taken, nth_id, Workspace, WorkspaceId, WorkspaceStore,
};
use vstd::prelude::*;

verus! {

/// A home directory, and a path in it.
pub open spec fn expanded(input: Seq<char>, home: Option<Seq<char>>) -> Seq<char> {
    match home {
        Some(h) if starts(input, "~/"@) => joined_path(h, input.skip(2)),
        _ => input,
    }
}

/// A path with a leading `~/` taken as the home directory, where that is known.
pub fn expand_tilde(input: &str, home: Option<&str>) -> (r: String)
    ensures
        r@ == expanded(
            input@,
            match home {
                Some(h) => Some(h@),
                None => None,
            },
        ),
{
    let cs = chars_of(input);
    proof {
        reveal_strlit("~/");
    }
    if starts_with(&cs, &chars_of("~/")) {
        if let Some(h) = home {
            let rest = vstd::slice::slice_subrange(&cs, 2, cs.len());
            assert(rest@ =~= input@.skip(2));
            return join_path(h, string_of(rest).as_str());
        }
    }
    input.to_owned()
}

/// The home directory: what `HOME` says, or `USERPROFILE` where that is not set; `None`
/// where it is empty.
pub fn home_dir(home: Option<String>, profile: Option<String>) -> (r: Option<String>)
    ensures
        r == match home {
            Some(h) => if h@.len() > 0 {
                Some(h)
            } else {
                None
            },
            None => match profile {
                Some(p) => if p@.len() > 0 {
                    Some(p)
                } else {
                    None
                },
                None => None,
            },
        },
{
    let found = match home {
        Some(h) => Some(h),
        None => profile,
    };
    match found {
        Some(p) => {
            if chars_of(p.as_str()).len() > 0 {
                Some(p)
            } else {
                None
            }
        },
        None => None,
    }
}

// ---------------------------------------------------------------------------- workspace

/// Where a command gets its workspace from.
#[derive(Debug)]
pub struct SourceArgs {
    /// Source folders to index.
    pub folders: Vec<String>,
    /// A saved workspace, by name or id.
    pub workspace: Option<String>,
    /// Where the index of the folders is written.
    pub kb_dir: Option<String>,
    /// The file that workspaces are saved in.
    pub store: Option<String>,
}

/// Where a command gets its workspace from, once that is clear.
#[derive(Debug, PartialEq, Eq)]
pub enum Source {
    /// A saved workspace of this name or id.
    Saved(String),
    /// The folders that were given.
    AdHoc,
}

/// Why a command has no workspace.
#[derive(Debug, PartialEq, Eq)]
pub enum SourceError {
    /// Folders and a saved workspace were given.
    Both,
    /// Neither folders nor a saved workspace were given.
    Neither,
}

impl SourceError {
    /// What the error says.
    pub fn message(&self) -> (r: &'static str)
        ensures
            r@ == match self {
                SourceError::Both => "pass either source folders OR --workspace, not both"@,
                SourceError::Neither =>
                    "specify one or more source folders, or --workspace <name>"@,
            },
    {
        match self {
            SourceError::Both => "pass either source folders OR --workspace, not both",
            SourceError::Neither => "specify one or more source folders, or --workspace <name>",
        }
    }
}

/// Decides where a command gets its workspace from.
pub fn choose_source(src: &SourceArgs) -> (r: Result<Source, SourceError>)
    ensures
        match r {
            Ok(Source::Saved(n)) => src.folders@.len() == 0 && (src.workspace matches Some(w) && w@
                == n@),
            Ok(Source::AdHoc) => src.folders@.len() > 0 && src.workspace is None,
            Err(SourceError::Both) => src.folders@.len() > 0 && src.workspace is Some,
            Err(SourceError::Neither) => src.folders@.len() == 0 && src.workspace is None,
        },
{
    match &src.workspace {
        Some(name) => {
            if src.folders.len() > 0 {
                Err(SourceError::Both)
            } else {
                Ok(Source::Saved(name.clone()))
            }
        },
        None => {
            if src.folders.len() == 0 {
                Err(SourceError::Neither)
            } else {
                Ok(Source::AdHoc)
            }
        },
    }
}

/// Whether a workspace goes by a name.
pub open spec fn goes_by(w: Workspace, name: Seq<char>) -> bool {
    w.name@ == name || w.id.0@ == name
}

/// The first workspace that goes by a name, or has it as its id.
pub fn find_workspace<'a>(all: &'a Vec<Workspace>, name: &str) -> (r: Option<&'a Workspace>)
    ensures
        match r {
            Some(w) => exists|i: int|
                0 <= i < all@.len() && *w == #[trigger] all@[i] && goes_by(all@[i], name@)
                    && forall|k: int| 0 <= k < i ==> !goes_by(#[trigger] all@[k], name@),
            None => forall|k: int| 0 <= k < all@.len() ==> !goes_by(#[trigger] all@[k], name@),
        },
{
    let mut i: usize = 0;
    while i < all.len()
        invariant
            i <= all@.len(),
            forall|k: int| 0 <= k < i ==> !goes_by(#[trigger] all@[k], name@),
        decreases all.len() - i,
    {
        let w = &all[i];
        if same(w.name.as_str(), name) || same(w.id.0.as_str(), name) {
            assert(goes_by(all@[i as int], name@));
            return Some(w);
        }
        i = i + 1;
    }
    None
}

/// The file that workspaces are saved in: the one that was given, else the one in the
/// configuration directory.
pub fn store_path(store: &Option<String>, config_dir: &str) -> (r: String)
    ensures
        r@ == match store {
            Some(p) => p@,
            None => joined_path(config_dir@, "workspaces.json"@),
        },
{
    match store {
        Some(p) => p.clone(),
        None => join_path(config_dir, "workspaces.json"),
    }
}

/// A folder that was given for a new workspace, and what stands there.
#[derive(Debug)]
pub struct GivenFolder {
    pub given: String,
    /// Its canonical path, where it resolves.
    pub canonical: Option<String>,
    pub is_dir: bool,
}

/// Why a workspace cannot be created.
#[derive(Debug, PartialEq, Eq)]
pub enum CreateError {
    /// A knowledge-base directory is missing, with nobody to ask for it.
    MissingKbDir,
    /// A path is no folder.
    NotAFolder(String),
    /// There is no folder.
    NoFolder,
    /// A specs folder is none of the folders.
    SpecsNotInput(String),
}

impl CreateError {
    /// What the error says.
    pub fn message(&self) -> (r: String)
        ensures
            r@ == match self {
                CreateError::MissingKbDir =>
                    "--kb-dir is required when creating non-interactively (with --name + --folder)"@,
                CreateError::NotAFolder(p) => "not a folder: "@ + p@,
                CreateError::NoFolder => "a workspace needs at least one folder"@,
                CreateError::SpecsNotInput(p) =>
                    "--specs-folder must also be supplied as an input --folder: "@ + p@,
            },
    {
        match self {
            CreateError::MissingKbDir =>
                "--kb-dir is required when creating non-interactively (with --name + --folder)".to_owned(),
            CreateError::NotAFolder(p) => {
                let mut s = "not a folder: ".to_owned();
                s.append(p.as_str());
                s
            },
            CreateError::NoFolder => "a workspace needs at least one folder".to_owned(),
            CreateError::SpecsNotInput(p) => {
                let mut s = "--specs-folder must also be supplied as an input --folder: ".to_owned();
                s.append(p.as_str());
                s
            },
        }
    }
}

/// Whether a workspace is created without asking: a name and a folder were given.
pub fn asks_nothing(name: &Option<String>, folders: &Vec<String>) -> (r: bool)
    ensures
        r == (*name is Some && folders@.len() > 0),
{
    name.is_some() && folders.len() > 0
}

/// The knowledge-base directory of a workspace that is created without asking.
pub fn required_kb_dir(kb_dir: Option<String>) -> (r: Result<String, CreateError>)
    ensures
        r == match kb_dir {
            Some(d) => Ok::<String, CreateError>(d),
            None => Err::<String, CreateError>(CreateError::MissingKbDir),
        },
{
    match kb_dir {
        Some(d) => Ok(d),
        None => Err(CreateError::MissingKbDir),
    }
}

/// Whether a given path is a folder, and which, or what is said of it.
pub open spec fn folder_at(f: GivenFolder) -> Result<Seq<char>, Seq<char>> {
    match f.canonical {
        Some(p) => if f.is_dir {
            Ok(p@)
        } else {
            Err(p@)
        },
        None => Err(f.given@),
    }
}

/// The folders at some given paths, as far as they are ones.
pub open spec fn folders_at(fs: Seq<GivenFolder>) -> Seq<Seq<char>> {
    fs.map_values(|f: GivenFolder| folder_at(f)->Ok_0)
}

/// Whether given paths up to one are folders.
pub open spec fn folders_until(fs: Seq<GivenFolder>, n: int) -> bool {
    forall|k: int| 0 <= k < n ==> folder_at(#[trigger] fs[k]) is Ok
}

/// Whether a path is one of some folders.
pub open spec fn is_one_of(folders: Seq<Seq<char>>, path: Seq<char>) -> bool {
    exists|i: int| 0 <= i < folders.len() && path_eq(#[trigger] folders[i], path)
}

fn folder_of(f: &GivenFolder) -> (r: Result<String, String>)
    ensures
        match r {
            Ok(p) => folder_at(*f) == Ok::<Seq<char>, Seq<char>>(p@),
            Err(p) => folder_at(*f) == Err::<Seq<char>, Seq<char>>(p@),
        },
{
    match &f.canonical {
        Some(p) => {
            if f.is_dir {
                Ok(p.clone())
            } else {
                Err(p.clone())
            }
        },
        None => Err(f.given.clone()),
    }
}

fn among(folders: &Vec<String>, path: &str) -> (r: bool)
    ensures
        r == is_one_of(texts(folders@), path@),
{
    let mut i: usize = 0;
    while i < folders.len()
        invariant
            i <= folders@.len(),
            forall|k: int| 0 <= k < i ==> !path_eq(#[trigger] texts(folders@)[k], path@),
        decreases folders.len() - i,
    {
        if paths_equal(folders[i].as_str(), path) {
            assert(path_eq(texts(folders@)[i as int], path@));
            return true;
        }
        i = i + 1;
    }
    false
}

/// Whether an error is the first thing wrong with given folders.
pub open spec fn first_fault(
    folders: Seq<GivenFolder>,
    specs: Seq<GivenFolder>,
    e: CreateError,
) -> bool {
    match e {
        CreateError::MissingKbDir => false,
        CreateError::NoFolder => folders.len() == 0,
        CreateError::NotAFolder(p) => {
            ||| exists|i: int|
                0 <= i < folders.len() && folders_until(folders, i) && folder_at(
                    #[trigger] folders[i],
                ) == Err::<Seq<char>, Seq<char>>(p@)
            ||| folders.len() > 0 && folders_until(folders, folders.len() as int) && exists|i: int|
                0 <= i < specs.len() && specs_until(folders, specs, i) && folder_at(
                    #[trigger] specs[i],
                ) == Err::<Seq<char>, Seq<char>>(p@)
        },
        CreateError::SpecsNotInput(p) => folders.len() > 0 && folders_until(
            folders,
            folders.len() as int,
        ) && exists|i: int|
            0 <= i < specs.len() && specs_until(folders, specs, i) && folder_at(
                #[trigger] specs[i],
            ) == Ok::<Seq<char>, Seq<char>>(p@) && !is_one_of(folders_at(folders), p@),
    }
}

/// Whether specs folders up to one are folders of the workspace.
pub open spec fn specs_until(folders: Seq<GivenFolder>, specs: Seq<GivenFolder>, n: int) -> bool {
    forall|k: int|
        0 <= k < n ==> folder_at(#[trigger] specs[k]) is Ok && is_one_of(
            folders_at(folders),
            folder_at(specs[k])->Ok_0,
        )
}

/// Checks the folders of a new workspace: each is a folder, there is one, and each specs
/// folder is one of them. Gives them resolved, or the first thing that is wrong.
pub fn check_folders(folders: &Vec<GivenFolder>, specs: &Vec<GivenFolder>) -> (r: Result<
    (Vec<String>, Vec<String>),
    CreateError,
>)
    ensures
        match r {
            Ok((fs, ss)) => {
                &&& folders@.len() > 0
                &&& folders_until(folders@, folders@.len() as int)
                &&& specs_until(folders@, specs@, specs@.len() as int)
                &&& texts(fs@) == folders_at(folders@)
                &&& texts(ss@) == folders_at(specs@)
            },
            Err(e) => first_fault(folders@, specs@, e),
        },
{
    let ghost want = folders_at(folders@);
    let mut fs: Vec<String> = Vec::new();
    let mut i: usize = 0;
    assert(texts(fs@) =~= want.take(0));
    while i < folders.len()
        invariant
            i <= folders@.len(),
            want == folders_at(folders@),
            folders_until(folders@, i as int),
            texts(fs@) == want.take(i as int),
        decreases folders.len() - i,
    {
        let ghost before = texts(fs@);
        match folder_of(&folders[i]) {
            Ok(p) => {
                fs.push(p);
                assert(texts(fs@) =~= before.push(want[i as int]));
                assert(want.take(i + 1) =~= before.push(want[i as int]));
            },
            Err(p) => {
                let e = CreateError::NotAFolder(p);
                assert(folder_at(folders@[i as int]) == Err::<Seq<char>, Seq<char>>(p@));
                return Err(e);
            },
        }
        i = i + 1;
    }
    assert(want.take(want.len() as int) =~= want);
    if fs.len() == 0 {
        assert(texts(fs@).len() == fs@.len());
        return Err(CreateError::NoFolder);
    }
    assert(texts(fs@).len() == fs@.len());
    let ghost wanted = folders_at(specs@);
    let mut ss: Vec<String> = Vec::new();
    let mut k: usize = 0;
    assert(texts(ss@) =~= wanted.take(0));
    while k < specs.len()
        invariant
            k <= specs@.len(),
            folders@.len() > 0,
            texts(fs@) == folders_at(folders@),
            folders_until(folders@, folders@.len() as int),
            wanted == folders_at(specs@),
            specs_until(folders@, specs@, k as int),
            texts(ss@) == wanted.take(k as int),
        decreases specs.len() - k,
    {
        let ghost before = texts(ss@);
        match folder_of(&specs[k]) {
            Ok(p) => {
                if !among(&fs, p.as_str()) {
                    assert(folder_at(specs@[k as int]) == Ok::<Seq<char>, Seq<char>>(p@));
                    return Err(CreateError::SpecsNotInput(p));
                }
                ss.push(p);
                assert(texts(ss@) =~= before.push(wanted[k as int]));
                assert(wanted.take(k + 1) =~= before.push(wanted[k as int]));
            },
            Err(p) => {
                assert(folder_at(specs@[k as int]) == Err::<Seq<char>, Seq<char>>(p@));
                return Err(CreateError::NotAFolder(p));
            },
        }
        k = k + 1;
    }
    assert(wanted.take(wanted.len() as int) =~= wanted);
    Ok((fs, ss))
}

// ---------------------------------------------------------------------------- questions

/// What a terminal is asked next about a new workspace.
#[derive(Debug, PartialEq, Eq)]
pub enum Question {
    /// The workspace's name.
    Name,
    /// A parent folder to look for folders under.
    Parent,
    /// Which of the folders under a parent.
    Candidates(String),
    /// The path of a folder.
    Folder,
    /// Whether a path is a folder.
    IsFolder(String),
    /// Whether to add another folder.
    Another,
    /// Which of the folders are specs folders.
    Specs,
    /// The knowledge-base directory.
    KbDir,
    /// Nothing more.
    Done,
}

/// What was answered.
#[derive(Debug, PartialEq, Eq)]
pub enum Answer {
    /// A text that was typed.
    Text(String),
    /// Paths that were picked.
    Picked(Vec<String>),
    /// Yes or no.
    Yes(bool),
}

/// What is known of a new workspace, and what is asked next.
#[derive(Debug)]
pub struct Interview {
    pub name: Option<String>,
    pub folders: Vec<String>,
    pub specs_folders: Vec<String>,
    pub discover: Option<String>,
    pub kb_dir: Option<String>,
    pub question: Question,
}

/// A question as plain values.
pub enum Asked {
    Name,
    Parent,
    Candidates(Seq<char>),
    Folder,
    IsFolder(Seq<char>),
    Another,
    Specs,
    KbDir,
    Done,
}

/// An answer as plain values.
pub enum Said {
    Text(Seq<char>),
    Picked(Seq<Seq<char>>),
    Yes(bool),
}

/// An interview as plain values.
pub struct Known {
    pub name: Option<Seq<char>>,
    pub folders: Seq<Seq<char>>,
    pub specs_folders: Seq<Seq<char>>,
    pub discover: Option<Seq<char>>,
    pub kb_dir: Option<Seq<char>>,
    pub question: Asked,
}

/// A text that may be missing, as a plain value.
pub open spec fn maybe(t: Option<String>) -> Option<Seq<char>> {
    match t {
        Some(s) => Some(s@),
        None => None,
    }
}

impl View for Question {
    type V = Asked;

    open spec fn view(&self) -> Asked {
        match self {
            Question::Name => Asked::Name,
            Question::Parent => Asked::Parent,
            Question::Candidates(p) => Asked::Candidates(p@),
            Question::Folder => Asked::Folder,
            Question::IsFolder(p) => Asked::IsFolder(p@),
            Question::Another => Asked::Another,
            Question::Specs => Asked::Specs,
            Question::KbDir => Asked::KbDir,
            Question::Done => Asked::Done,
        }
    }
}

impl View for Answer {
    type V = Said;

    open spec fn view(&self) -> Said {
        match self {
            Answer::Text(t) => Said::Text(t@),
            Answer::Picked(ps) => Said::Picked(texts(ps@)),
            Answer::Yes(b) => Said::Yes(*b),
        }
    }
}

impl View for Interview {
    type V = Known;

    open spec fn view(&self) -> Known {
        Known {
            name: maybe(self.name),
            folders: texts(self.folders@),
            specs_folders: texts(self.specs_folders@),
            discover: maybe(self.discover),
            kb_dir: maybe(self.kb_dir),
            question: self.question@,
        }
    }
}

impl Known {
    /// What is asked once the specs folders are known.
    pub open spec fn after_specs(self) -> Asked {
        if self.kb_dir is None {
            Asked::KbDir
        } else {
            Asked::Done
        }
    }

    /// What is asked once the folders are known: which are specs folders, unless that was
    /// said.
    pub open spec fn after_folders(self) -> Asked {
        if self.specs_folders.len() == 0 && self.folders.len() > 0 {
            Asked::Specs
        } else {
            self.after_specs()
        }
    }

    /// What is asked once the name is known: for folders, unless they were given.
    pub open spec fn after_name(self) -> Asked {
        if self.folders.len() > 0 {
            self.after_folders()
        } else {
            match self.discover {
                Some(p) => Asked::Candidates(p),
                None => Asked::Parent,
            }
        }
    }

    /// What is asked first.
    pub open spec fn begun(self) -> Asked {
        if self.name is None {
            Asked::Name
        } else {
            self.after_name()
        }
    }

    /// The same with another question.
    pub open spec fn asking(self, question: Asked) -> Known {
        Known { question, ..self }
    }

    /// What is known after an answer. An answer that does not fit the question changes
    /// nothing.
    pub open spec fn answered(self, said: Said, home: Option<Seq<char>>) -> Known {
        match (self.question, said) {
            (Asked::Name, Said::Text(t)) => {
                let k = Known { name: Some(t), ..self };
                k.asking(k.after_name())
            },
            (Asked::Parent, Said::Text(t)) => {
                let p = expanded(trim_white(t), home);
                self.asking(
                    if p.len() > 0 {
                        Asked::Candidates(p)
                    } else {
                        Asked::Folder
                    },
                )
            },
            (Asked::Candidates(_), Said::Picked(ps)) => if ps.len() > 0 {
                let k = Known { folders: ps, ..self };
                k.asking(k.after_folders())
            } else {
                self.asking(Asked::Folder)
            },
            (Asked::Folder, Said::Text(t)) => {
                let p = expanded(trim_white(t), home);
                self.asking(
                    if p.len() > 0 {
                        Asked::IsFolder(p)
                    } else {
                        Asked::Folder
                    },
                )
            },
            (Asked::IsFolder(p), Said::Yes(b)) => if b {
                Known { folders: self.folders.push(p), ..self }.asking(Asked::Another)
            } else {
                self.asking(Asked::Folder)
            },
            (Asked::Another, Said::Yes(b)) => self.asking(
                if b {
                    Asked::Folder
                } else {
                    self.after_folders()
                },
            ),
            (Asked::Specs, Said::Picked(ps)) => {
                let k = Known { specs_folders: ps, ..self };
                k.asking(k.after_specs())
            },
            (Asked::KbDir, Said::Text(t)) => {
                let k = Known { kb_dir: Some(expanded(trim_white(t), home)), ..self };
                k.asking(Asked::Done)
            },
            _ => self,
        }
    }

    /// Whether nothing is missing where nothing more is asked.
    pub open spec fn sound(self) -> bool {
        &&& !(self.question is Name) ==> self.name is Some
        &&& self.question is Done ==> self.kb_dir is Some
        &&& (self.question is Done || self.question is KbDir || self.question is Specs
            || self.question is Another) ==> self.folders.len() > 0
    }
}

/// A typed path, trimmed, with a leading `~/` taken as the home directory.
fn typed_path(text: &str, home: Option<&str>) -> (r: String)
    ensures
        r@ == expanded(
            trim_white(text@),
            match home {
                Some(h) => Some(h@),
                None => None,
            },
        ),
{
    let t = string_of(trimmed(&chars_of(text), CharSet::White));
    expand_tilde(t.as_str(), home)
}

fn is_empty_text(s: &str) -> (r: bool)
    ensures
        r == (s@.len() == 0),
{
    chars_of(s).len() == 0
}

impl Interview {
    fn after_specs(&self) -> (r: Question)
        ensures
            r@ == self@.after_specs(),
    {
        if self.kb_dir.is_none() {
            Question::KbDir
        } else {
            Question::Done
        }
    }

    fn after_folders(&self) -> (r: Question)
        ensures
            r@ == self@.after_folders(),
    {
        if self.specs_folders.len() == 0 && self.folders.len() > 0 {
            Question::Specs
        } else {
            self.after_specs()
        }
    }

    fn after_name(&self) -> (r: Question)
        ensures
            r@ == self@.after_name(),
    {
        if self.folders.len() > 0 {
            return self.after_folders();
        }
        match &self.discover {
            Some(p) => Question::Candidates(p.clone()),
            None => Question::Parent,
        }
    }

    /// What is asked about a workspace of which some things were given.
    pub fn begin(
        name: Option<String>,
        folders: Vec<String>,
        specs_folders: Vec<String>,
        discover: Option<String>,
        kb_dir: Option<String>,
    ) -> (r: Self)
        ensures
            r@ == ({
                let k = Known {
                    name: maybe(name),
                    folders: texts(folders@),
                    specs_folders: texts(specs_folders@),
                    discover: maybe(discover),
                    kb_dir: maybe(kb_dir),
                    question: Asked::Name,
                };
                k.asking(k.begun())
            }),
            r@.sound(),
    {
        let mut r = Interview {
            name,
            folders,
            specs_folders,
            discover,
            kb_dir,
            question: Question::Name,
        };
        if r.name.is_some() {
            let q = r.after_name();
            r.question = q;
        }
        r
    }

    /// Takes an answer.
    pub fn answer(&mut self, answer: Answer, home: Option<&str>)
        requires
            old(self)@.sound(),
        ensures
            final(self)@ == old(self)@.answered(
                answer@,
                match home {
                    Some(h) => Some(h@),
                    None => None,
                },
            ),
            final(self)@.sound(),
    {
        match answer {
            Answer::Text(t) => match &self.question {
                Question::Name => {
                    self.name = Some(t);
                    let q = self.after_name();
                    self.question = q;
                },
                Question::Parent => {
                    let p = typed_path(t.as_str(), home);
                    self.question = if is_empty_text(p.as_str()) {
                        Question::Folder
                    } else {
                        Question::Candidates(p)
                    };
                },
                Question::Folder => {
                    let p = typed_path(t.as_str(), home);
                    self.question = if is_empty_text(p.as_str()) {
                        Question::Folder
                    } else {
                        Question::IsFolder(p)
                    };
                },
                Question::KbDir => {
                    self.kb_dir = Some(typed_path(t.as_str(), home));
                    self.question = Question::Done;
                },
                _ => {},
            },
            Answer::Picked(ps) => match &self.question {
                Question::Candidates(_) => {
                    if ps.len() > 0 {
                        self.folders = ps;
                        let q = self.after_folders();
                        self.question = q;
                    } else {
                        self.question = Question::Folder;
                    }
                },
                Question::Specs => {
                    self.specs_folders = ps;
                    let q = self.after_specs();
                    self.question = q;
                },
                _ => {},
            },
            Answer::Yes(b) => match &self.question {
                Question::IsFolder(p) => {
                    if b {
                        let p = p.clone();
                        let ghost was = texts(self.folders@);
                        self.folders.push(p);
                        assert(texts(self.folders@) =~= was.push(p@));
                        self.question = Question::Another;
                    } else {
                        self.question = Question::Folder;
                    }
                },
                Question::Another => {
                    let q = if b {
                        Question::Folder
                    } else {
                        self.after_folders()
                    };
                    self.question = q;
                },
                _ => {},
            },
        }
    }
}

/// A directory that was typed for the knowledge base; `None` where nothing was.
pub fn typed_kb_dir(text: &str, home: Option<&str>) -> (r: Option<String>)
    ensures
        ({
            let p = expanded(
                trim_white(text@),
                match home {
                    Some(h) => Some(h@),
                    None => None,
                },
            );
            match r {
                Some(d) => d@ == p && p.len() > 0,
                None => p.len() == 0,
            }
        }),
{
    let p = typed_path(text, home);
    if is_empty_text(p.as_str()) {
        None
    } else {
        Some(p)
    }
}

/// Whether a new workspace has to be confirmed.
pub fn needs_confirmation(yes: bool, asks_nothing: bool) -> (r: bool)
    ensures
        r == (!yes && !asks_nothing),
{
    !yes && !asks_nothing
}

/// Creates a workspace of checked folders in a store, with its specs folders.
pub fn create_in(
    store: &mut WorkspaceStore,
    name: String,
    folders: Vec<String>,
    specs_folders: Vec<String>,
    kb_dir: String,
) -> (r: WorkspaceId)
    requires
        old(store).workspaces@.len() < usize::MAX - 2,
    ensures
        is_first_free(old(store).workspaces@, base_id(name@), r.0@),
        final(store).workspaces@.len() == old(store).workspaces@.len() + 1,
        final(store).workspaces@.drop_last() == old(store).workspaces@,
        exists|linking: LinkingConfig|
            linking.specs_folders == specs_folders && linking.links@.len() == 0
                && #[trigger] created_as(
                final(store).workspaces@.last(),
                r.0@,
                name@,
                folders,
                kb_dir@,
                linking,
            ),
{
    let linking = LinkingConfig { specs_folders, links: Vec::new() };
    store.create_with_linking(name, folders, kb_dir, linking)
}

/// The workspace of folders that were given for one command.
pub fn ad_hoc(folders: Vec<String>, kb_dir: String) -> (r: Workspace)
    ensures
        exists|linking: LinkingConfig|
            linking.specs_folders@.len() == 0 && linking.links@.len() == 0 && #[trigger] created_as(
                r,
                base_id("looper-cli"@),
                "looper-cli"@,
                folders,
                kb_dir@,
                linking,
            ),
{
    let none: Vec<Workspace> = Vec::new();
    let mut store = WorkspaceStore::open(none);
    let id = store.create("looper-cli".to_owned(), folders, kb_dir);
    proof {
        assert(!is_taken(none@, nth_id(base_id("looper-cli"@), 1)));
    }
    let mut all = store.workspaces;
    assert(all@.last() == all@[0]);
    all.remove(0)
}

/// The lines that tell what will be created.
pub open spec fn creation_of(
    name: Seq<char>,
    store: Seq<char>,
    kb_dir: Seq<char>,
    folders: Seq<Seq<char>>,
    specs: Seq<Seq<char>>,
) -> Seq<Seq<char>> {
    seq![
        ""@,
        "Workspace to create:"@,
        "  name:    "@ + name,
        "  store:   "@ + store,
        "  kb_dir:  "@ + kb_dir,
        "  folders:"@,
    ] + folders.map_values(|f: Seq<char>| "    - "@ + f) + if specs.len() > 0 {
        seq!["  specs repos:"@] + specs.map_values(|f: Seq<char>| "    - "@ + f)
    } else {
        Seq::empty()
    }
}

fn add_items(out: &mut Vec<String>, items: &Vec<String>)
    ensures
        texts(final(out)@) == texts(old(out)@) + texts(items@).map_values(
            |f: Seq<char>| "    - "@ + f,
        ),
{
    let ghost was = texts(out@);
    let ghost listed = texts(items@).map_values(|f: Seq<char>| "    - "@ + f);
    let mut i: usize = 0;
    assert(was + listed.take(0) =~= was);
    while i < items.len()
        invariant
            i <= items@.len(),
            listed == texts(items@).map_values(|f: Seq<char>| "    - "@ + f),
            texts(out@) == was + listed.take(i as int),
        decreases items.len() - i,
    {
        let ghost before = texts(out@);
        add_line(out, "    - ", items[i].as_str());
        proof {
            assert(listed[i as int] == "    - "@ + items@[i as int]@);
            assert(was + listed.take(i + 1) =~= before.push(listed[i as int]));
        }
        i = i + 1;
    }
    assert(listed.take(listed.len() as int) =~= listed);
}

/// The lines that tell what will be created.
pub fn creation_lines(
    name: &str,
    store: &str,
    kb_dir: &str,
    folders: &Vec<String>,
    specs: &Vec<String>,
) -> (r: Vec<String>)
    ensures
        texts(r@) == creation_of(name@, store@, kb_dir@, texts(folders@), texts(specs@)),
{
    proof {
        reveal_strlit("");
    }
    let mut out: Vec<String> = Vec::new();
    assert(texts(out@) =~= Seq::empty());
    let ghost empty = Seq::<Seq<char>>::empty();
    add_line(&mut out, "", "");
    add_line(&mut out, "Workspace to create:", "");
    add_line(&mut out, "  name:    ", name);
    add_line(&mut out, "  store:   ", store);
    add_line(&mut out, "  kb_dir:  ", kb_dir);
    add_line(&mut out, "  folders:", "");
    let ghost head = seq![
        ""@,
        "Workspace to create:"@,
        "  name:    "@ + name@,
        "  store:   "@ + store@,
        "  kb_dir:  "@ + kb_dir@,
        "  folders:"@,
    ];
    proof {
        assert(""@ + ""@ =~= ""@);
        assert("Workspace to create:"@ + ""@ =~= "Workspace to create:"@);
        assert("  folders:"@ + ""@ =~= "  folders:"@);
        assert(texts(out@) =~= head);
    }
    add_items(&mut out, folders);
    let ghost listed = texts(folders@).map_values(|f: Seq<char>| "    - "@ + f);
    if specs.len() > 0 {
        add_line(&mut out, "  specs repos:", "");
        assert("  specs repos:"@ + ""@ =~= "  specs repos:"@);
        add_items(&mut out, specs);
        let ghost more = texts(specs@).map_values(|f: Seq<char>| "    - "@ + f);
        assert((head + listed).push("  specs repos:"@) + more =~= head + listed + (seq![
            "  specs repos:"@,
        ] + more));
    } else {
        assert(head + listed + empty =~= head + listed);
    }
    out
}

// -------------------------------------------------------------------------------- lines

/// The line of an event of a workspace.
pub open spec fn event_line(event: EngineEvent, wid: Seq<char>) -> Option<Seq<char>> {
    match event {
        EngineEvent::ScanStarted { workspace_id, total } if workspace_id@ == wid => Some(
            "scan: "@ + decimal(total as nat) + " change(s) to apply…"@,
        ),
        EngineEvent::DocIndexed { workspace_id, title, path, .. } if workspace_id@ == wid => Some(
            "indexed: "@ + title@ + "  ("@ + path@ + ")"@,
        ),
        EngineEvent::DocRemoved { workspace_id, path } if workspace_id@ == wid => Some(
            "removed: "@ + path@,
        ),
        EngineEvent::FileChanged { workspace_id, path, kind } if workspace_id@ == wid => Some(
            "changed ["@ + change_name(kind) + "]: "@ + path@,
        ),
        EngineEvent::Warning { workspace_id, message } if workspace_id@ == wid => Some(
            "warning: "@ + message@,
        ),
        EngineEvent::ScanCompleted { workspace_id, indexed, removed } if workspace_id@ == wid =>
            Some(
            "scan complete: "@ + decimal(indexed as nat) + " indexed, "@ + decimal(removed as nat)
                + " removed"@,
        ),
        _ => None,
    }
}

/// A line that tells of an event of the workspace `wid`; `None` for what is not told.
pub fn describe_event(event: &EngineEvent, wid: &str) -> (r: Option<String>)
    ensures
        r is Some == event_line(*event, wid@) is Some,
        r matches Some(s) ==> event_line(*event, wid@) == Some(s@),
{
    match event {
        EngineEvent::ScanStarted { workspace_id, total } => {
            if !same(workspace_id.as_str(), wid) {
                return None;
            }
            let mut s = "scan: ".to_owned();
            s.append(decimal_of(*total as u64).as_str());
            s.append(" change(s) to apply…");
            Some(s)
        },
        EngineEvent::DocIndexed { workspace_id, title, path, .. } => {
            if !same(workspace_id.as_str(), wid) {
                return None;
            }
            let mut s = "indexed: ".to_owned();
            s.append(title.as_str());
            s.append("  (");
            s.append(path.as_str());
            s.append(")");
            Some(s)
        },
        EngineEvent::DocRemoved { workspace_id, path } => {
            if !same(workspace_id.as_str(), wid) {
                return None;
            }
            let mut s = "removed: ".to_owned();
            s.append(path.as_str());
            Some(s)
        },
        EngineEvent::FileChanged { workspace_id, path, kind } => {
            if !same(workspace_id.as_str(), wid) {
                return None;
            }
            let mut s = "changed [".to_owned();
            s.append(change_label(*kind));
            s.append("]: ");
            s.append(path.as_str());
            Some(s)
        },
        EngineEvent::Warning { workspace_id, message } => {
            if !same(workspace_id.as_str(), wid) {
                return None;
            }
            let mut s = "warning: ".to_owned();
            s.append(message.as_str());
            Some(s)
        },
        EngineEvent::ScanCompleted { workspace_id, indexed, removed } => {
            if !same(workspace_id.as_str(), wid) {
                return None;
            }
            let mut s = "scan complete: ".to_owned();
            s.append(decimal_of(*indexed as u64).as_str());
            s.append(" indexed, ");
            s.append(decimal_of(*removed as u64).as_str());
            s.append(" removed");
            Some(s)
        },
        _ => None,
    }
}

/// Whether an event completes the scan of a workspace, and with what counts.
pub fn scan_result(event: &EngineEvent, wid: &str) -> (r: Option<(u32, u32)>)
    ensures
        r == match *event {
            EngineEvent::ScanCompleted { workspace_id, indexed, removed } => if workspace_id@
                == wid@ {
                Some((indexed, removed))
            } else {
                None
            },
            _ => None,
        },
{
    match event {
        EngineEvent::ScanCompleted { workspace_id, indexed, removed } => {
            if same(workspace_id.as_str(), wid) {
                Some((*indexed, *removed))
            } else {
                None
            }
        },
        _ => None,
    }
}

/// The members of the object that sums a scan up.
pub open spec fn summary_members(
    indexed: u32,
    removed: u32,
    doc_count: usize,
    kb_dir: Seq<char>,
) -> Seq<(Seq<char>, Json)> {
    seq![
        ("event"@, Json::Text("scan_complete"@)),
        ("indexed"@, Json::Number(indexed as nat)),
        ("removed"@, Json::Number(removed as nat)),
        ("doc_count"@, Json::Number(doc_count as nat)),
        ("kb_dir"@, Json::Text(kb_dir)),
    ]
}

/// A scan summed up as JSON.
pub fn scan_summary(indexed: u32, removed: u32, doc_count: usize, kb_dir: &str) -> (r: Result<
    String,
    serde_json::Error,
>)
    ensures
        ({
            let v = object(summary_members(indexed, removed, doc_count, kb_dir@));
            match r {
                Ok(s) => json_text(v) == Some(s@),
                Err(_) => json_text(v) is None,
            }
        }),
{
    let mut items: Vec<(String, serde_json::Value)> = Vec::new();
    push_pair(&mut items, "event", string_value("scan_complete"));
    push_pair(&mut items, "indexed", number_value(indexed as u64));
    push_pair(&mut items, "removed", number_value(removed as u64));
    push_pair(&mut items, "doc_count", number_value(doc_count as u64));
    push_pair(&mut items, "kb_dir", string_value(kb_dir));
    assert(pairs_view(items@) =~= summary_members(indexed, removed, doc_count, kb_dir@));
    let v = object_value(items);
    write_json(&v)
}

/// What kind of folder a candidate is.
pub open spec fn candidate_kind(c: WorkspaceFolderCandidate) -> Seq<char> {
    if c.is_git_repo && c.has_markdown {
        "git+docs"@
    } else if c.is_git_repo {
        "git"@
    } else if c.has_markdown {
        "docs"@
    } else {
        "dir"@
    }
}

/// The line of a candidate folder: its kind, its name and its path, in columns.
pub fn candidate_label(c: &WorkspaceFolderCandidate) -> (r: String)
    ensures
        r@ == pad_right(candidate_kind(*c), 8) + "  "@ + pad_right(c.name@, 28) + " "@ + c.path@,
{
    let kind = match (c.is_git_repo, c.has_markdown) {
        (true, true) => "git+docs",
        (true, false) => "git",
        (false, true) => "docs",
        (false, false) => "dir",
    };
    let mut s = padded_right(kind, 8);
    s.append("  ");
    s.append(padded_right(c.name.as_str(), 28).as_str());
    s.append(" ");
    s.append(c.path.as_str());
    s
}

/// The line of a folder: its name and its path, in columns.
pub fn folder_label(path: &str) -> (r: String)
    ensures
        r@ == pad_right(
            match name_of(path@) {
                Some(n) => n,
                None => Seq::empty(),
            },
            28,
        ) + " "@ + path@,
{
    let name = match file_name(path) {
        Some(n) => n,
        None => {
            let e = String::new();
            assert(e@ =~= Seq::empty());
            e
        },
    };
    let mut s = padded_right(name.as_str(), 28);
    s.append(" ");
    s.append(path);
    s
}

/// The lines of a workspace in a list.
pub open spec fn workspace_lines(w: Workspace) -> Seq<Seq<char>> {
    seq![
        ""@,
        "  "@ + w.name@ + " ("@ + w.id.0@ + ")"@,
        "    kb_dir:     "@ + w.kb_dir@,
        "    backend:    "@ + "Okf"@ + "    enrichment: "@ + if w.enrichment.enabled {
            "on"@
        } else {
            "off"@
        },
        "    folders:"@,
    ] + texts(w.folders@).map_values(|f: Seq<char>| "      - "@ + f)
}

/// The lines of the first `n` workspaces in a list.
pub open spec fn lines_until(all: Seq<Workspace>, n: nat) -> Seq<Seq<char>>
    decreases n,
{
    if n == 0 || n > all.len() {
        Seq::empty()
    } else {
        lines_until(all, (n - 1) as nat) + workspace_lines(all[n - 1])
    }
}

/// The lines that list workspaces.
pub open spec fn list_of(all: Seq<Workspace>, store: Seq<char>) -> Seq<Seq<char>> {
    if all.len() == 0 {
        seq!["No workspaces in "@ + store]
    } else {
        seq![decimal(all.len()) + " workspace(s) in "@ + store + ":"@] + lines_until(
            all,
            all.len(),
        )
    }
}

fn add_line(out: &mut Vec<String>, a: &str, b: &str)
    ensures
        texts(final(out)@) == texts(old(out)@).push(a@ + b@),
{
    let mut s = a.to_owned();
    s.append(b);
    out.push(s);
    assert(texts(out@) =~= texts(old(out)@).push(a@ + b@));
}

/// The lines that list workspaces.
pub fn list_lines(all: &Vec<Workspace>, store: &str) -> (r: Vec<String>)
    ensures
        texts(r@) == list_of(all@, store@),
{
    let mut out: Vec<String> = Vec::new();
    assert(texts(out@) =~= Seq::empty());
    if all.len() == 0 {
        add_line(&mut out, "No workspaces in ", store);
        assert(texts(out@) =~= seq!["No workspaces in "@ + store@]);
        return out;
    }
    let mut first = decimal_of(all.len() as u64);
    first.append(" workspace(s) in ");
    first.append(store);
    first.append(":");
    out.push(first);
    let ghost head = seq![decimal(all@.len()) + " workspace(s) in "@ + store@ + ":"@];
    assert(texts(out@) =~= head);
    let mut i: usize = 0;
    assert(head + lines_until(all@, 0) =~= head);
    while i < all.len()
        invariant
            i <= all@.len(),
            texts(out@) == head + lines_until(all@, i as nat),
        decreases all.len() - i,
    {
        let ghost before = texts(out@);
        let w = &all[i];
        out.push("".to_owned());
        let mut named = "  ".to_owned();
        named.append(w.name.as_str());
        named.append(" (");
        named.append(w.id.0.as_str());
        named.append(")");
        out.push(named);
        assert(texts(out@) =~= before + seq![""@, "  "@ + w.name@ + " ("@ + w.id.0@ + ")"@]);
        add_line(&mut out, "    kb_dir:     ", w.kb_dir.as_str());
        let mut backend = "    backend:    ".to_owned();
        match w.backend {
            KbBackend::Okf => backend.append("Okf"),
        }
        backend.append("    enrichment: ");
        backend.append(
            if w.enrichment.enabled {
                "on"
            } else {
                "off"
            },
        );
        let ghost backed = "    backend:    "@ + "Okf"@ + "    enrichment: "@ + if w.enrichment.enabled {
            "on"@
        } else {
            "off"@
        };
        assert(backend@ == backed);
        let ghost was = texts(out@);
        out.push(backend);
        assert(texts(out@) =~= was.push(backed));
        out.push("    folders:".to_owned());
        assert(texts(out@) =~= was.push(backed).push("    folders:"@));
        let ghost fixed = workspace_lines(*w).take(5);
        let ghost listed = texts(w.folders@).map_values(|f: Seq<char>| "      - "@ + f);
        proof {
            assert(workspace_lines(*w) =~= fixed + listed);
            assert(texts(out@) =~= before + fixed);
        }
        let mut k: usize = 0;
        assert(texts(out@) =~= before + fixed + listed.take(0));
        while k < w.folders.len()
            invariant
                k <= w.folders@.len(),
                listed == texts(w.folders@).map_values(|f: Seq<char>| "      - "@ + f),
                texts(out@) == before + fixed + listed.take(k as int),
            decreases w.folders.len() - k,
        {
            let ghost was = texts(out@);
            add_line(&mut out, "      - ", w.folders[k].as_str());
            proof {
                assert(listed[k as int] == "      - "@ + w.folders@[k as int]@);
                assert(before + fixed + listed.take(k + 1) =~= was.push(listed[k as int]));
            }
            k = k + 1;
        }
        proof {
            assert(listed.take(listed.len() as int) =~= listed);
            assert(before + fixed + listed =~= before + workspace_lines(*w));
            assert(head + (lines_until(all@, i as nat) + workspace_lines(*w)) =~= head
                + lines_until(all@, i as nat) + workspace_lines(*w));
        }
        i = i + 1;
    }
    out
}

} // verus!
