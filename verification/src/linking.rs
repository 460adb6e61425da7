//! From a workspace's linking configuration to the links that its folders should hold.
//!
//! Every folder that is no specs folder is a host: it links to the knowledge base and to
//! every specs folder. The name of such a link and whether it is ignored can be
//! overridden for each host and target. A specs folder is a target, never a host.

use crate::ipc::{LinkConfig, LinkNaming, LinkTargetKind};
use crate::link::{wanted, DesiredLink, LINK_NAME};
use crate::path::{file_name, name_of, path_eq, paths_equal};
use crate::sorted::SortedMap;
use crate::text::{chars_of, same, texts, trim_white, trimmed, CharSet};
use crate::workspace::Workspace;
use vstd::prelude::*;

verus! {

/// The links that a host should hold.
#[derive(Debug, Clone, PartialEq, Eq)]
pub struct ResolvedLinks {
    /// The links to create or repair in the host.
    pub desired: Vec<DesiredLink>,
    /// The names of those links that are to be listed in the host's `.gitignore`.
    pub gitignore_names: Vec<String>,
}

/// A link target: its kind, the specs folder that it is, and its path.
pub struct Target {
    pub kind: LinkTargetKind,
    pub specs_folder: Option<Seq<char>>,
    pub path: Seq<char>,
}

/// The targets of a workspace: the knowledge base, then each specs folder.
pub open spec fn targets(workspace: Workspace) -> Seq<Target> {
    seq![
        Target { kind: LinkTargetKind::Kb, specs_folder: None, path: workspace.kb_dir@ },
    ] + texts(workspace.linking.specs_folders@).map_values(
        |s: Seq<char>| Target { kind: LinkTargetKind::Specs, specs_folder: Some(s), path: s },
    )
}

/// Whether a link's settings are those of a host and target.
pub open spec fn is_for(l: LinkConfig, host: Seq<char>, t: Target) -> bool {
    concerns(l, host, t.kind, t.specs_folder)
}

/// Whether a link's settings are those of a host and a target of some kind.
pub open spec fn concerns(
    l: LinkConfig,
    host: Seq<char>,
    kind: LinkTargetKind,
    specs_folder: Option<Seq<char>>,
) -> bool {
    &&& l.host@ == host
    &&& l.kind == kind
    &&& match l.specs_folder {
        Some(s) => specs_folder == Some(s@),
        None => specs_folder is None,
    }
}

/// The text of an optional string.
pub open spec fn text_in(s: Option<&str>) -> Option<Seq<char>> {
    match s {
        Some(s) => Some(s@),
        None => None,
    }
}

/// The index of the first settings for a host and target; the number of settings where
/// there are none.
pub open spec fn settings_from(links: Seq<LinkConfig>, host: Seq<char>, t: Target, i: int) -> int
    decreases links.len() - i,
{
    if i < 0 || i >= links.len() {
        links.len() as int
    } else if is_for(links[i], host, t) {
        i
    } else {
        settings_from(links, host, t, i + 1)
    }
}

/// The settings for a host and target.
pub open spec fn settings(links: Seq<LinkConfig>, host: Seq<char>, t: Target) -> Option<
    LinkConfig,
> {
    let i = settings_from(links, host, t, 0);
    if i < links.len() {
        Some(links[i])
    } else {
        None
    }
}

/// The name of a directory, as a link is called after it.
pub open spec fn dir_name(p: Seq<char>) -> Seq<char> {
    match name_of(p) {
        Some(n) => n,
        None => "kb"@,
    }
}

/// The name of a link with settings.
pub open spec fn configured_name(
    cfg: LinkConfig,
    path: Seq<char>,
    true_names: SortedMap<String>,
) -> Seq<char> {
    match cfg.naming {
        LinkNaming::LocalDirName => dir_name(path),
        LinkNaming::GitTrueName => match true_names.lookup(path) {
            Some(n) => n@,
            None => dir_name(path),
        },
        LinkNaming::Custom => match cfg.custom_name {
            Some(n) => if trim_white(n@).len() > 0 {
                n@
            } else {
                dir_name(path)
            },
            None => dir_name(path),
        },
    }
}

/// The name of the link from a host to a target.
pub open spec fn link_name(
    links: Seq<LinkConfig>,
    host: Seq<char>,
    t: Target,
    true_names: SortedMap<String>,
) -> Seq<char> {
    match settings(links, host, t) {
        Some(cfg) => configured_name(cfg, t.path, true_names),
        None => match t.kind {
            LinkTargetKind::Kb => "kb"@,
            LinkTargetKind::Specs => dir_name(t.path),
        },
    }
}

/// The links from a host to targets, each with its name and path.
pub open spec fn links_to(
    links: Seq<LinkConfig>,
    host: Seq<char>,
    ts: Seq<Target>,
    true_names: SortedMap<String>,
) -> Seq<(Seq<char>, Seq<char>)> {
    ts.map_values(|t: Target| (link_name(links, host, t, true_names), t.path))
}

/// The names of the links from a host to targets that are to be ignored.
pub open spec fn ignored(
    links: Seq<LinkConfig>,
    host: Seq<char>,
    ts: Seq<Target>,
    true_names: SortedMap<String>,
) -> Seq<Seq<char>>
    decreases ts.len(),
{
    if ts.len() == 0 {
        Seq::empty()
    } else {
        let before = ignored(links, host, ts.drop_last(), true_names);
        match settings(links, host, ts.last()) {
            Some(cfg) if cfg.gitignore => before.push(
                link_name(links, host, ts.last(), true_names),
            ),
            _ => before,
        }
    }
}

/// Whether a folder is one of the specs folders of a workspace.
pub open spec fn is_specs_folder(workspace: Workspace, folder: Seq<char>) -> bool {
    exists|i: int|
        0 <= i < workspace.linking.specs_folders@.len() && path_eq(
            (#[trigger] workspace.linking.specs_folders@[i])@,
            folder,
        )
}

/// Every place that a link of the workspace can point at: the knowledge base and each
/// specs folder.
pub fn known_targets(workspace: &Workspace) -> (r: Vec<String>)
    ensures
        texts(r@) == targets(*workspace).map_values(|t: Target| t.path),
{
    let ghost paths = targets(*workspace).map_values(|t: Target| t.path);
    let mut out: Vec<String> = Vec::new();
    out.push(workspace.kb_dir.clone());
    let mut i: usize = 0;
    assert(texts(out@) =~= paths.take(1));
    while i < workspace.linking.specs_folders.len()
        invariant
            i <= workspace.linking.specs_folders@.len(),
            paths == targets(*workspace).map_values(|t: Target| t.path),
            texts(out@) == paths.take(i + 1),
        decreases workspace.linking.specs_folders.len() - i,
    {
        let ghost before = texts(out@);
        out.push(workspace.linking.specs_folders[i].clone());
        proof {
            assert(texts(out@) =~= before.push(
                workspace.linking.specs_folders@[i as int]@,
            ));
            assert(paths[i + 1] == workspace.linking.specs_folders@[i as int]@);
            assert(paths.take(i + 2) =~= paths.take(i + 1).push(paths[i + 1]));
        }
        i = i + 1;
    }
    assert(paths.take(paths.len() as int) =~= paths);
    out
}

fn local_dir_name(p: &str) -> (r: String)
    ensures
        r@ == dir_name(p@),
{
    match file_name(p) {
        Some(n) => n,
        None => LINK_NAME.to_owned(),
    }
}

fn resolve_name(cfg: &LinkConfig, path: &str, true_names: &SortedMap<String>) -> (r: String)
    requires
        true_names.wf(),
    ensures
        r@ == configured_name(*cfg, path@, *true_names),
{
    match cfg.naming {
        LinkNaming::LocalDirName => local_dir_name(path),
        LinkNaming::GitTrueName => match true_names.get(path) {
            Some(n) => n.clone(),
            None => local_dir_name(path),
        },
        LinkNaming::Custom => match &cfg.custom_name {
            Some(n) => {
                let cs = chars_of(n.as_str());
                if trimmed(&cs, CharSet::White).len() > 0 {
                    n.clone()
                } else {
                    local_dir_name(path)
                }
            },
            None => local_dir_name(path),
        },
    }
}

fn applies(l: &LinkConfig, host: &str, kind: LinkTargetKind, specs_folder: Option<&str>) -> (r:
    bool)
    ensures
        r == concerns(*l, host@, kind, text_in(specs_folder)),
{
    same(l.host.as_str(), host) && l.kind == kind && match (&l.specs_folder, specs_folder) {
        (Some(a), Some(b)) => same(a.as_str(), b),
        (None, None) => true,
        _ => false,
    }
}

fn push_resolved(
    out: &mut ResolvedLinks,
    workspace: &Workspace,
    host: &str,
    kind: LinkTargetKind,
    specs_folder: Option<&str>,
    path: &str,
    true_names: &SortedMap<String>,
)
    requires
        true_names.wf(),
    ensures
        ({
            let t = Target {
                kind,
                specs_folder: text_in(specs_folder),
                path: path@,
            };
            let links = workspace.linking.links@;
            let name = link_name(links, host@, t, *true_names);
            &&& wanted(final(out).desired@) == wanted(old(out).desired@).push((name, path@))
            &&& texts(final(out).gitignore_names@) == match settings(links, host@, t) {
                Some(cfg) if cfg.gitignore => texts(old(out).gitignore_names@).push(name),
                _ => texts(old(out).gitignore_names@),
            }
        }),
{
    let ghost t = Target {
        kind,
        specs_folder: text_in(specs_folder),
        path: path@,
    };
    let links = &workspace.linking.links;
    let mut i: usize = 0;
    while i < links.len() && !applies(&links[i], host, kind, specs_folder)
        invariant
            i <= links@.len(),
            t == (Target {
                kind,
                specs_folder: text_in(specs_folder),
                path: path@,
            }),
            settings_from(links@, host@, t, 0) == settings_from(links@, host@, t, i as int),
        decreases links.len() - i,
    {
        assert(!is_for(links@[i as int], host@, t));
        i = i + 1;
    }
    proof {
        if i < links@.len() {
            assert(is_for(links@[i as int], host@, t));
        }
    }
    let mut ignore = false;
    let name = if i < links.len() {
        ignore = links[i].gitignore;
        resolve_name(&links[i], path, true_names)
    } else {
        match kind {
            LinkTargetKind::Kb => LINK_NAME.to_owned(),
            LinkTargetKind::Specs => local_dir_name(path),
        }
    };
    if ignore {
        out.gitignore_names.push(name.clone());
        assert(texts(out.gitignore_names@) =~= texts(old(out).gitignore_names@).push(name@));
    }
    out.desired.push(DesiredLink { name, target: path.to_owned() });
    assert(wanted(out.desired@) =~= wanted(old(out).desired@).push((name@, path@)));
}

/// The links that the folder `repo_root` should hold: to the knowledge base and to every
/// specs folder, each under its configured or default name. A specs folder holds none.
/// `true_names` gives the repository name of each target that has one.
pub fn resolve_links(
    workspace: &Workspace,
    repo_root: &str,
    true_names: &SortedMap<String>,
) -> (r: ResolvedLinks)
    requires
        true_names.wf(),
    ensures
        ({
            let ts = if is_specs_folder(*workspace, repo_root@) {
                Seq::empty()
            } else {
                targets(*workspace)
            };
            let links = workspace.linking.links@;
            &&& wanted(r.desired@) == links_to(links, repo_root@, ts, *true_names)
            &&& texts(r.gitignore_names@) == ignored(links, repo_root@, ts, *true_names)
        }),
{
    let ghost links = workspace.linking.links@;
    let ghost ts = targets(*workspace);
    let mut out = ResolvedLinks { desired: Vec::new(), gitignore_names: Vec::new() };
    let specs = &workspace.linking.specs_folders;
    proof {
        assert(wanted(out.desired@) =~= Seq::empty());
        assert(texts(out.gitignore_names@) =~= Seq::empty());
        assert(ts.take(0) =~= Seq::empty());
        assert(links_to(links, repo_root@, Seq::empty(), *true_names) =~= Seq::empty());
    }
    let mut k: usize = 0;
    while k < specs.len()
        invariant
            *specs == workspace.linking.specs_folders,
            k <= specs@.len(),
            forall|n: int| 0 <= n < k ==> !path_eq((#[trigger] specs@[n])@, repo_root@),
        decreases specs.len() - k,
    {
        if paths_equal(specs[k].as_str(), repo_root) {
            assert(is_specs_folder(*workspace, repo_root@));
            return ResolvedLinks { desired: Vec::new(), gitignore_names: Vec::new() };
        }
        k = k + 1;
    }
    proof {
        assert(ts.take(1).drop_last() =~= ts.take(0));
        assert(ts.take(1).last() == ts[0]);
        assert(ignored(links, repo_root@, ts.take(0), *true_names) =~= Seq::empty());
        assert(links_to(links, repo_root@, ts.take(1), *true_names) =~= Seq::empty().push(
            (link_name(links, repo_root@, ts[0], *true_names), ts[0].path),
        ));
    }
    push_resolved(
        &mut out,
        workspace,
        repo_root,
        LinkTargetKind::Kb,
        None,
        workspace.kb_dir.as_str(),
        true_names,
    );
    let mut i: usize = 0;
    while i < specs.len()
        invariant
            *specs == workspace.linking.specs_folders,
            true_names.wf(),
            ts == targets(*workspace),
            links == workspace.linking.links@,
            i <= specs@.len(),
            wanted(out.desired@) == links_to(links, repo_root@, ts.take(i + 1), *true_names),
            texts(out.gitignore_names@) == ignored(
                links,
                repo_root@,
                ts.take(i + 1),
                *true_names,
            ),
        decreases specs.len() - i,
    {
        proof {
            assert(ts[i + 1] == (Target {
                kind: LinkTargetKind::Specs,
                specs_folder: Some(specs@[i as int]@),
                path: specs@[i as int]@,
            }));
            assert(ts.take(i + 2).drop_last() =~= ts.take(i + 1));
            assert(ts.take(i + 2).last() == ts[i + 1]);
            assert(links_to(links, repo_root@, ts.take(i + 2), *true_names) =~= links_to(
                links,
                repo_root@,
                ts.take(i + 1),
                *true_names,
            ).push((link_name(links, repo_root@, ts[i + 1], *true_names), ts[i + 1].path)));
        }
        push_resolved(
            &mut out,
            workspace,
            repo_root,
            LinkTargetKind::Specs,
            Some(specs[i].as_str()),
            specs[i].as_str(),
            true_names,
        );
        i = i + 1;
    }
    assert(ts.take(ts.len() as int) =~= ts);
    out
}

// -------------------------------------------------------------------------- laws

/// Every link of a host points at a place that the workspace knows, so that a link that is
/// dropped from the configuration is recognised again.
pub proof fn links_point_at_known_targets(
    workspace: Workspace,
    host: Seq<char>,
    true_names: SortedMap<String>,
)
    ensures
        links_to(workspace.linking.links@, host, targets(workspace), true_names).map_values(
            |p: (Seq<char>, Seq<char>)| p.1,
        ) == targets(workspace).map_values(|t: Target| t.path),
{
    assert(links_to(workspace.linking.links@, host, targets(workspace), true_names).map_values(
        |p: (Seq<char>, Seq<char>)| p.1,
    ) =~= targets(workspace).map_values(|t: Target| t.path));
}

/// Settings for one host say nothing of another: with none of its own, a host's links have
/// their default names and none is ignored.
pub proof fn hosts_without_settings_use_defaults(
    links: Seq<LinkConfig>,
    host: Seq<char>,
    ts: Seq<Target>,
    true_names: SortedMap<String>,
)
    requires
        forall|i: int| 0 <= i < links.len() ==> (#[trigger] links[i]).host@ != host,
    ensures
        ignored(links, host, ts, true_names).len() == 0,
        forall|k: int|
            0 <= k < ts.len() ==> (#[trigger] links_to(links, host, ts, true_names)[k]).0
                == match ts[k].kind {
                LinkTargetKind::Kb => "kb"@,
                LinkTargetKind::Specs => dir_name(ts[k].path),
            },
    decreases ts.len(),
{
    assert forall|t: Target| settings(links, host, t) is None by {
        lemma_no_settings(links, host, t, 0);
    }
    if ts.len() > 0 {
        hosts_without_settings_use_defaults(links, host, ts.drop_last(), true_names);
    }
}

proof fn lemma_no_settings(links: Seq<LinkConfig>, host: Seq<char>, t: Target, i: int)
    requires
        forall|i: int| 0 <= i < links.len() ==> (#[trigger] links[i]).host@ != host,
        0 <= i <= links.len(),
    ensures
        settings_from(links, host, t, i) == links.len(),
    decreases links.len() - i,
{
    if i < links.len() {
        assert(links[i].host@ != host);
        lemma_no_settings(links, host, t, i + 1);
    }
}

/// The settings that are those of a host, in order.
pub open spec fn settings_of(links: Seq<LinkConfig>, host: Seq<char>) -> Seq<LinkConfig>
    decreases links.len(),
{
    if links.len() == 0 {
        links
    } else {
        let rest = settings_of(links.drop_first(), host);
        if links[0].host@ == host {
            seq![links[0]] + rest
        } else {
            rest
        }
    }
}

proof fn lemma_settings_from(links: Seq<LinkConfig>, host: Seq<char>, t: Target, i: int)
    requires
        0 <= i <= links.len(),
    ensures
        ({
            let at = settings_from(links, host, t, i);
            let own = settings_of(links.skip(i), host);
            let k = settings_from(own, host, t, 0);
            &&& 0 <= at <= links.len()
            &&& 0 <= k <= own.len()
            &&& at < links.len() <==> k < own.len()
            &&& at < links.len() ==> links[at] == own[k]
        }),
    decreases links.len() - i,
{
    let tail = links.skip(i);
    let own = settings_of(tail, host);
    if i < links.len() {
        assert(tail[0] == links[i]);
        assert(tail.drop_first() =~= links.skip(i + 1));
        let rest = settings_of(links.skip(i + 1), host);
        lemma_settings_from(links, host, t, i + 1);
        if links[i].host@ == host {
            assert(own =~= seq![links[i]] + rest);
            assert(rest =~= own.skip(1));
            lemma_settings_shift(own, host, t, 0);
        }
    }
}

proof fn lemma_settings_shift(links: Seq<LinkConfig>, host: Seq<char>, t: Target, i: int)
    requires
        links.len() > 0,
        0 <= i <= links.len() - 1,
    ensures
        settings_from(links, host, t, i + 1) == settings_from(links.skip(1), host, t, i) + 1,
    decreases links.len() - i,
{
    let rest = links.skip(1);
    if i < rest.len() {
        assert(rest[i] == links[i + 1]);
        lemma_settings_shift(links, host, t, i + 1);
    }
}

/// The links of a host and the names of those that are ignored are settled by its own
/// settings: those of other hosts leave them as they are.
pub proof fn settings_of_other_hosts_do_not_count(
    a: Seq<LinkConfig>,
    b: Seq<LinkConfig>,
    host: Seq<char>,
    ts: Seq<Target>,
    true_names: SortedMap<String>,
)
    requires
        settings_of(a, host) == settings_of(b, host),
    ensures
        links_to(a, host, ts, true_names) == links_to(b, host, ts, true_names),
        ignored(a, host, ts, true_names) == ignored(b, host, ts, true_names),
    decreases ts.len(),
{
    assert forall|t: Target| settings(a, host, t) == settings(b, host, t) by {
        lemma_settings_from(a, host, t, 0);
        lemma_settings_from(b, host, t, 0);
        assert(a.skip(0) =~= a);
        assert(b.skip(0) =~= b);
    }
    assert(links_to(a, host, ts, true_names) =~= links_to(b, host, ts, true_names));
    if ts.len() > 0 {
        settings_of_other_hosts_do_not_count(a, b, host, ts.drop_last(), true_names);
    }
}

/// Whether the first settings for a host and target have the link ignored.
pub open spec fn is_ignored(links: Seq<LinkConfig>, host: Seq<char>, t: Target) -> bool {
    settings(links, host, t) matches Some(cfg) && cfg.gitignore
}

/// The names that are ignored are exactly those of the links whose first settings have them
/// ignored.
pub proof fn ignored_names_are_those_of_links(
    links: Seq<LinkConfig>,
    host: Seq<char>,
    ts: Seq<Target>,
    true_names: SortedMap<String>,
    name: Seq<char>,
)
    ensures
        ignored(links, host, ts, true_names).contains(name) <==> exists|k: int|
            0 <= k < ts.len() && is_ignored(links, host, #[trigger] ts[k]) && links_to(
                links,
                host,
                ts,
                true_names,
            )[k].0 == name,
    decreases ts.len(),
{
    let all = ignored(links, host, ts, true_names);
    let to = links_to(links, host, ts, true_names);
    if ts.len() > 0 {
        let rest = ts.drop_last();
        let last = ts.last();
        let before = ignored(links, host, rest, true_names);
        let to_rest = links_to(links, host, rest, true_names);
        ignored_names_are_those_of_links(links, host, rest, true_names, name);
        assert(ts[ts.len() - 1] == last);
        if all.contains(name) {
            let i = choose|i: int| 0 <= i < all.len() && all[i] == name;
            if i < before.len() {
                assert(before[i] == name);
                let k = choose|k: int|
                    0 <= k < rest.len() && is_ignored(links, host, #[trigger] rest[k])
                        && to_rest[k].0 == name;
                assert(ts[k] == rest[k] && to[k] == to_rest[k]);
            } else {
                assert(is_ignored(links, host, ts[ts.len() - 1]));
                assert(to[ts.len() - 1].0 == name);
            }
        }
        if exists|k: int|
            0 <= k < ts.len() && is_ignored(links, host, #[trigger] ts[k]) && to[k].0 == name {
            let k = choose|k: int|
                0 <= k < ts.len() && is_ignored(links, host, #[trigger] ts[k]) && to[k].0 == name;
            if k < rest.len() {
                assert(ts[k] == rest[k] && to[k] == to_rest[k]);
                assert(before.contains(name));
                let i = choose|i: int| 0 <= i < before.len() && before[i] == name;
                assert(all[i] == name);
            } else {
                assert(all[before.len() as int] == name);
            }
        }
    }
}

} // verus!
