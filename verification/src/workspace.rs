//! Workspace files, their folders, and the names they are stored and
//! docked under.

use vstd::prelude::*;
use crate::error::{AppError, NameIssue};
use crate::paths::{
    components_of, file_name, has_cur_dir, is_absolute, join, join_path, named_components,
    path_is_absolute, views,
};
use crate::encoding::{hex_encode, hex_lower, random_bytes};
use crate::text::{ascii_lower, chars_eq, chars_of, exec_ascii_lower};

verus! {

/// How a workspace is opened.
#[derive(Clone, Copy, Debug, PartialEq, Eq, Structural)]
pub enum Mode {
    Folders,
    Symlink,
}

/// The name of the metadata file that no dock link may take.
pub const RESERVED_DOCK_METADATA_NAME: &'static str = ".zed-dock.json";

/// `name` is, up to ASCII case, one of the dock's metadata names: the
/// reserved metadata name or the dock lock file.
pub open spec fn is_dock_metadata_name(name: Seq<char>) -> bool {
    eq_ignore_ascii_case(name, RESERVED_DOCK_METADATA_NAME@) || eq_ignore_ascii_case(
        name,
        crate::dock::LOCK_FILE@,
    )
}

/// Whether `a` and `b` agree up to ASCII case.
pub open spec fn eq_ignore_ascii_case(a: Seq<char>, b: Seq<char>) -> bool {
    a.len() == b.len() && forall|i: int| 0 <= i < a.len() ==> ascii_lower(a[i]) == ascii_lower(b[i])
}

fn exec_eq_ignore_ascii_case(a: &Vec<char>, b: &Vec<char>) -> (r: bool)
    ensures
        r == eq_ignore_ascii_case(a@, b@),
{
    if a.len() != b.len() {
        return false;
    }
    let mut i: usize = 0;
    while i < a.len()
        invariant
            a@.len() == b@.len(),
            i <= a@.len(),
            forall|j: int| 0 <= j < i ==> ascii_lower(a@[j]) == ascii_lower(b@[j]),
        decreases a.len() - i,
    {
        if exec_ascii_lower(a[i]) != exec_ascii_lower(b[i]) {
            return false;
        }
        i = i + 1;
    }
    true
}

fn contains_char(v: &Vec<char>, c: char) -> (r: bool)
    ensures
        r == v@.contains(c),
{
    let mut i: usize = 0;
    while i < v.len()
        invariant
            i <= v@.len(),
            forall|j: int| 0 <= j < i ==> v@[j] != c,
        decreases v.len() - i,
    {
        if v[i] == c {
            proof {
                assert(v@[i as int] == c);
            }
            return true;
        }
        i = i + 1;
    }
    false
}

/// Why `name` cannot name a dock link, if it cannot.
pub open spec fn link_name_issue(name: Seq<char>) -> Option<NameIssue> {
    let comps = named_components(name);
    if name.len() == 0 {
        Some(NameIssue::Empty)
    } else if name == seq!['.'] || name == seq!['.', '.'] {
        Some(NameIssue::ReservedSegment)
    } else if name.contains('\0') {
        Some(NameIssue::NulByte)
    } else if name.contains('/') || name.contains('\\') {
        Some(NameIssue::PathSeparator)
    } else if is_dock_metadata_name(name) {
        Some(NameIssue::ReservedMetadataName)
    } else if is_absolute(name) {
        Some(NameIssue::AbsolutePath)
    } else if !has_cur_dir(name) && comps.len() == 1 && comps[0] != seq!['.', '.'] && comps[0]
        == name {
        None
    } else if has_cur_dir(name) || (comps.len() > 0 && comps[0] == seq!['.', '.']) {
        Some(NameIssue::PathComponent)
    } else {
        Some(NameIssue::MultipleSegments)
    }
}

/// Why `name` cannot name a registered workspace, if it cannot.
pub open spec fn workspace_name_issue(name: Seq<char>) -> Option<NameIssue> {
    if name.len() == 0 {
        Some(NameIssue::Empty)
    } else if name == seq!['.'] || name == seq!['.', '.'] {
        Some(NameIssue::ReservedSegment)
    } else if name.contains('\0') {
        Some(NameIssue::NulByte)
    } else if name.contains('/') || name.contains('\\') {
        Some(NameIssue::PathSeparator)
    } else if name.contains('.') {
        Some(NameIssue::HasExtension)
    } else if !crate::paths::is_simple_path(name) {
        Some(NameIssue::MultipleSegments)
    } else {
        None
    }
}

fn is_dot_or_dot_dot(v: &Vec<char>) -> (r: bool)
    ensures
        r == (v@ == seq!['.'] || v@ == seq!['.', '.']),
{
    proof {
        if v@.len() == 1 && v@[0] == '.' {
            assert(v@ =~= seq!['.']);
        }
        if v@.len() == 2 && v@[0] == '.' && v@[1] == '.' {
            assert(v@ =~= seq!['.', '.']);
        }
    }
    (v.len() == 1 && v[0] == '.') || (v.len() == 2 && v[0] == '.' && v[1] == '.')
}

/// Checks that `name` can name a dock link.
pub fn validate_link_name(name: &str) -> (r: Result<(), AppError>)
    ensures
        match link_name_issue(name@) {
            None => r is Ok,
            Some(issue) => r matches Err(AppError::InvalidLinkName { name: n, reason }) && n@
                == name@ && reason == issue,
        },
{
    let v = chars_of(name);
    let reserved = chars_of(RESERVED_DOCK_METADATA_NAME);
    let lock_file = chars_of(crate::dock::LOCK_FILE);
    let issue: Option<NameIssue> = if v.len() == 0 {
        Some(NameIssue::Empty)
    } else if is_dot_or_dot_dot(&v) {
        Some(NameIssue::ReservedSegment)
    } else if contains_char(&v, '\0') {
        Some(NameIssue::NulByte)
    } else if contains_char(&v, '/') || contains_char(&v, '\\') {
        Some(NameIssue::PathSeparator)
    } else if exec_eq_ignore_ascii_case(&v, &reserved) || exec_eq_ignore_ascii_case(&v, &lock_file) {
        Some(NameIssue::ReservedMetadataName)
    } else if path_is_absolute(name) {
        Some(NameIssue::AbsolutePath)
    } else {
        let comps = components_of(name);
        let cur_dir = v[0] == '.' && (v.len() == 1 || v[1] == '/');
        proof {
            assert(views(comps@).len() == comps@.len());
            if comps@.len() > 0 {
                assert(views(comps@)[0] == comps@[0]@);
            }
        }
        if !cur_dir && comps.len() == 1 && !is_dot_dot(&comps[0]) && crate::text::chars_same(&comps[0], &v) {
            None
        } else if cur_dir || (comps.len() > 0 && is_dot_dot(&comps[0])) {
            Some(NameIssue::PathComponent)
        } else {
            Some(NameIssue::MultipleSegments)
        }
    };
    match issue {
        Some(reason) => Err(AppError::InvalidLinkName { name: name.to_owned(), reason }),
        None => Ok(()),
    }
}

fn is_dot_dot(v: &Vec<char>) -> (r: bool)
    ensures
        r == (v@ == seq!['.', '.']),
{
    proof {
        if v@.len() == 2 && v@[0] == '.' && v@[1] == '.' {
            assert(v@ =~= seq!['.', '.']);
        }
    }
    v.len() == 2 && v[0] == '.' && v[1] == '.'
}

/// Checks that `name` can name a registered workspace.
pub fn validate_workspace_name(name: &str) -> (r: Result<(), AppError>)
    ensures
        match workspace_name_issue(name@) {
            None => r is Ok,
            Some(issue) => r matches Err(AppError::InvalidWorkspaceName { name: n, reason }) && n@
                == name@ && reason == issue,
        },
        r is Ok <==> (name@.len() > 0 && !name@.contains('\0') && !name@.contains('/')
            && !name@.contains('\\') && !name@.contains('.')),
{
    proof {
        lemma_workspace_name_rules(name@);
    }
    let v = chars_of(name);
    let issue: Option<NameIssue> = if v.len() == 0 {
        Some(NameIssue::Empty)
    } else if is_dot_or_dot_dot(&v) {
        Some(NameIssue::ReservedSegment)
    } else if contains_char(&v, '\0') {
        Some(NameIssue::NulByte)
    } else if contains_char(&v, '/') || contains_char(&v, '\\') {
        Some(NameIssue::PathSeparator)
    } else if contains_char(&v, '.') {
        Some(NameIssue::HasExtension)
    } else if !crate::paths::path_is_simple(name) {
        Some(NameIssue::MultipleSegments)
    } else {
        None
    };
    match issue {
        Some(reason) => Err(AppError::InvalidWorkspaceName { name: name.to_owned(), reason }),
        None => Ok(()),
    }
}

/// A validated name for a link inside a dock.
#[derive(Debug)]
pub struct LinkName(String);

impl Clone for LinkName {
    fn clone(&self) -> (r: Self)
        ensures
            r@ == self@,
    {
        proof {
            use_type_invariant(self);
        }
        LinkName(self.0.clone())
    }
}

impl LinkName {
    /// The name as text.
    pub closed spec fn view(&self) -> Seq<char> {
        self.0@
    }

    /// Every link name passes the link name rules.
    #[verifier::type_invariant]
    spec fn valid(&self) -> bool {
        link_name_issue(self.0@) is None
    }

    /// A link name, when `name` passes the link name rules.
    pub fn new(name: String) -> (r: Result<LinkName, AppError>)
        ensures
            match link_name_issue(name@) {
                None => r matches Ok(l) && l.view() == name@,
                Some(issue) => r matches Err(AppError::InvalidLinkName { name: n, reason }) && n@
                    == name@ && reason == issue,
            },
    {
        match validate_link_name(name.as_str()) {
            Ok(()) => Ok(LinkName(name)),
            Err(e) => Err(e),
        }
    }

    /// The name as text, which passes the link name rules.
    pub fn as_str(&self) -> (r: &str)
        ensures
            r@ == self.view(),
            link_name_issue(r@) is None,
    {
        proof {
            use_type_invariant(self);
        }
        self.0.as_str()
    }
}

/// The extension of workspace files.
pub const WORKSPACE_EXTENSION: &'static str = "code-workspace";

/// The directory, under the user config directory, that owns this tool's state.
pub const APP_DIR: &'static str = "zed-workspace-dock";

/// The directory, under [`APP_DIR`], that holds registered workspaces.
pub const WORKSPACES_DIR: &'static str = "workspaces";

/// How many generated names are tried before giving up.
pub const GENERATED_NAME_ATTEMPTS: usize = 16;

/// `s` ends with `suffix`.
pub open spec fn ends_with(s: Seq<char>, suffix: Seq<char>) -> bool {
    suffix.len() <= s.len() && s.subrange(s.len() - suffix.len(), s.len() as int) == suffix
}

/// `s` without a trailing `.code-workspace`.
pub open spec fn strip_workspace_suffix(s: Seq<char>) -> Seq<char> {
    let suffix = seq!['.'] + WORKSPACE_EXTENSION@;
    if ends_with(s, suffix) {
        s.subrange(0, s.len() - suffix.len())
    } else {
        s
    }
}

fn exec_ends_with(v: &Vec<char>, suffix: &Vec<char>) -> (r: bool)
    ensures
        r == ends_with(v@, suffix@),
{
    if suffix.len() > v.len() {
        return false;
    }
    let n = v.len();
    let off = n - suffix.len();
    let mut i: usize = 0;
    while i < suffix.len()
        invariant
            n == v@.len(),
            off + suffix@.len() == v@.len(),
            i <= suffix@.len(),
            forall|j: int| 0 <= j < i ==> v@[off + j] == suffix@[j],
        decreases suffix.len() - i,
    {
        if v[off + i] != suffix[i] {
            proof {
                assert(v@.subrange(off as int, v@.len() as int)[i as int] != suffix@[i as int]);
            }
            return false;
        }
        i = i + 1;
    }
    proof {
        assert(v@.subrange(off as int, v@.len() as int) =~= suffix@);
    }
    true
}

/// `name` without a trailing `.code-workspace`.
pub fn strip_workspace_suffix_of(name: &str) -> (r: String)
    ensures
        r@ == strip_workspace_suffix(name@),
{
    let v = chars_of(name);
    let mut suffix: Vec<char> = Vec::new();
    suffix.push('.');
    let ext = chars_of(WORKSPACE_EXTENSION);
    let mut i: usize = 0;
    while i < ext.len()
        invariant
            i <= ext@.len(),
            suffix@ == seq!['.'] + ext@.take(i as int),
        decreases ext.len() - i,
    {
        suffix.push(ext[i]);
        proof {
            assert(seq!['.'] + ext@.take(i + 1) =~= (seq!['.'] + ext@.take(i as int)).push(ext@[i as int]));
        }
        i = i + 1;
    }
    proof {
        assert(ext@.take(ext@.len() as int) =~= ext@);
    }
    if exec_ends_with(&v, &suffix) {
        let head = crate::paths::sub_chars(&v, 0, v.len() - suffix.len());
        crate::text::string_of(&head)
    } else {
        name.to_owned()
    }
}

/// The file name a workspace called `name` is stored under.
pub open spec fn workspace_file_name(name: Seq<char>) -> Seq<char> {
    name + seq!['.'] + WORKSPACE_EXTENSION@
}

/// Where a workspace called `name` lives inside `workspaces_dir`.
pub open spec fn workspace_path(workspaces_dir: Seq<char>, name: Seq<char>) -> Seq<char> {
    join(workspaces_dir, workspace_file_name(name))
}

/// The path of the workspace called `name` inside `workspaces_dir`, when the
/// name is acceptable.
pub fn workspace_path_in(workspaces_dir: &str, name: &str) -> (r: Result<String, AppError>)
    ensures
        match workspace_name_issue(name@) {
            None => r matches Ok(p) && p@ == workspace_path(workspaces_dir@, name@),
            Some(issue) => r matches Err(AppError::InvalidWorkspaceName { name: n, reason }) && n@
                == name@ && reason == issue,
        },
{
    match validate_workspace_name(name) {
        Err(e) => return Err(e),
        Ok(()) => {},
    }
    let mut file = name.to_owned();
    file.append(".");
    file.append(WORKSPACE_EXTENSION);
    proof {
        reveal_strlit(".");
        assert(file@ =~= workspace_file_name(name@));
    }
    Ok(join_path(workspaces_dir, file.as_str()))
}

/// The directory of registered workspaces under a config directory.
pub open spec fn registered_workspaces_dir(config_dir: Seq<char>) -> Seq<char> {
    join(join(config_dir, APP_DIR@), WORKSPACES_DIR@)
}

/// The directory of registered workspaces under `config_dir`.
pub fn registered_workspaces_dir_in(config_dir: &str) -> (r: String)
    ensures
        r@ == registered_workspaces_dir(config_dir@),
{
    let app = join_path(config_dir, APP_DIR);
    join_path(app.as_str(), WORKSPACES_DIR)
}

/// The path of the registered workspace called `name`, for the user config
/// directory `config_dir`.
pub fn registered_workspace_path(config_dir: &str, name: &str) -> (r: Result<String, AppError>)
    ensures
        match workspace_name_issue(name@) {
            None => r matches Ok(p) && p@ == workspace_path(
                registered_workspaces_dir(config_dir@),
                name@,
            ),
            Some(issue) => r matches Err(AppError::InvalidWorkspaceName { name: n, reason }) && n@
                == name@ && reason == issue,
        },
{
    let dir = registered_workspaces_dir_in(config_dir);
    workspace_path_in(dir.as_str(), name)
}

/// Checks that `path` names a `.code-workspace` file.
pub fn ensure_code_workspace_path(path: &str) -> (r: Result<(), AppError>)
    ensures
        crate::paths::extension(path@) == Some(WORKSPACE_EXTENSION@) ==> r is Ok,
        crate::paths::extension(path@) != Some(WORKSPACE_EXTENSION@) ==> (r matches Err(
            AppError::UnsupportedWorkspaceExtension { path: p },
        ) && p@ == path@),
{
    if !crate::paths::has_extension(path, WORKSPACE_EXTENSION) {
        return Err(AppError::UnsupportedWorkspaceExtension { path: path.to_owned() });
    }
    Ok(())
}

/// Checks that a workspace file may be written at `output`, given whether
/// something is already there and whether overwriting was asked for.
pub fn ensure_can_write_workspace(output: &str, exists: bool, force: bool) -> (r: Result<
    (),
    AppError,
>)
    ensures
        (exists && !force) ==> (r matches Err(AppError::WorkspaceAlreadyExists { path: p }) && p@
            == output@),
        !(exists && !force) ==> r is Ok,
{
    if exists && !force {
        return Err(AppError::WorkspaceAlreadyExists { path: output.to_owned() });
    }
    Ok(())
}

/// Checks that `output_dir` can serve as an output directory, given whether
/// something exists there and whether it is a directory.
pub fn ensure_output_directory_arg(output_dir: &str, exists: bool, is_dir: bool) -> (r: Result<
    (),
    AppError,
>)
    ensures
        crate::paths::extension(output_dir@) == Some(WORKSPACE_EXTENSION@) ==> (r matches Err(
            AppError::OutputPathLooksLikeWorkspaceFile { path: p },
        ) && p@ == output_dir@),
        crate::paths::extension(output_dir@) != Some(WORKSPACE_EXTENSION@) && exists && !is_dir
            ==> (r matches Err(AppError::OutputPathNotDirectory { path: p }) && p@ == output_dir@),
        crate::paths::extension(output_dir@) != Some(WORKSPACE_EXTENSION@) && !(exists && !is_dir)
            ==> r is Ok,
{
    if crate::paths::has_extension(output_dir, WORKSPACE_EXTENSION) {
        return Err(AppError::OutputPathLooksLikeWorkspaceFile { path: output_dir.to_owned() });
    }
    if exists && !is_dir {
        return Err(AppError::OutputPathNotDirectory { path: output_dir.to_owned() });
    }
    Ok(())
}

/// A folder entry of a workspace file: an optional link name and a path,
/// relative to the workspace file's directory or absolute.
#[derive(Clone, Debug)]
pub struct WorkspaceFolder {
    pub name: Option<String>,
    pub path: String,
}

/// A folder as plain values: its name, if any, and its path.
pub type FolderView = (Option<Seq<char>>, Seq<char>);

impl View for WorkspaceFolder {
    type V = FolderView;

    open spec fn view(&self) -> FolderView {
        (
            match self.name {
                Some(n) => Some(n@),
                None => None,
            },
            self.path@,
        )
    }
}

/// The `zed-dock` section of a workspace file.
#[derive(Clone, Copy, Debug)]
pub struct DockConfig {
    pub mode: Option<Mode>,
}

/// A parsed `.code-workspace` file.
#[derive(Debug)]
pub struct WorkspaceFile {
    pub folders: Vec<WorkspaceFolder>,
    pub zed_dock: Option<DockConfig>,
}

/// What the file system said about one folder path: the canonical target
/// and whether it is a directory, or why it could not be resolved.
#[derive(Debug)]
pub enum TargetProbe {
    Resolved { target: String, is_dir: bool },
    Failed { source: std::io::Error },
}

/// A folder ready to be linked into a dock.
#[derive(Clone, Debug)]
pub struct ResolvedFolder {
    pub name: LinkName,
    pub target: String,
}

impl View for ResolvedFolder {
    type V = (Seq<char>, Seq<char>);

    open spec fn view(&self) -> (Seq<char>, Seq<char>) {
        (self.name@, self.target@)
    }
}

/// Why a folder could not be used.
#[derive(Clone, Copy, Debug, PartialEq, Eq, Structural)]
pub enum FolderFault {
    Unresolved,
    NotDirectory,
    MissingBasename,
    InvalidName(NameIssue),
    Duplicate,
    EmptyPath,
}

/// The directory that a workspace file's relative folder paths start from.
pub fn workspace_dir(workspace_path: &str) -> (r: Result<String, AppError>)
    ensures
        match crate::paths::parent(workspace_path@) {
            Some(d) => r matches Ok(s) && s@ == d,
            None => r matches Err(AppError::MissingWorkspaceParent),
        },
{
    match crate::paths::parent_of(workspace_path) {
        Some(d) => Ok(d),
        None => Err(AppError::MissingWorkspaceParent),
    }
}

/// The target a probe found, or why the folder failed.
pub open spec fn probe_target(probe: TargetProbe) -> Result<Seq<char>, FolderFault> {
    match probe {
        TargetProbe::Failed { .. } => Err(FolderFault::Unresolved),
        TargetProbe::Resolved { target, is_dir } => if is_dir {
            Ok(target@)
        } else {
            Err(FolderFault::NotDirectory)
        },
    }
}

/// `e` reports that the folder path `joined`, probed as `probe`, failed to resolve.
pub open spec fn target_error(e: AppError, joined: Seq<char>, probe: TargetProbe) -> bool {
    match probe {
        TargetProbe::Failed { source } => e matches AppError::FolderResolve { path, source: s }
            && path@ == joined && s == source,
        TargetProbe::Resolved { target, .. } => e matches AppError::FolderTargetNotDirectory {
            path,
        } && path@ == target@,
    }
}

/// The folder at `joined`, as the probe of its path reports it.
pub fn resolve_folder_target(joined: &str, probe: TargetProbe) -> (r: Result<String, AppError>)
    ensures
        match probe_target(probe) {
            Ok(t) => r matches Ok(s) && s@ == t,
            Err(_) => r matches Err(e) && target_error(e, joined@, probe),
        },
{
    match probe {
        TargetProbe::Failed { source } => Err(
            AppError::FolderResolve { path: joined.to_owned(), source },
        ),
        TargetProbe::Resolved { target, is_dir } => {
            if !is_dir {
                return Err(AppError::FolderTargetNotDirectory { path: target });
            }
            Ok(target)
        },
    }
}

/// A name for Unicode lowercasing of text.
pub uninterp spec fn unicode_lowercase(s: Seq<char>) -> Seq<char>;

/// Calls `str::to_lowercase`; its result is named, by `unicode_lowercase`,
/// as a function of the text alone.
#[verifier::external_body]
fn to_lowercase(s: &str) -> (r: String)
    ensures
        r@ == unicode_lowercase(s@),
{
    s.to_lowercase()
}

/// The key under which link names collide: the name lowercased.
pub fn case_insensitive_link_key(name: &LinkName) -> (r: String)
    ensures
        r@ == unicode_lowercase(name@),
{
    to_lowercase(name.as_str())
}

/// The link name a folder asks for: its own name, else its target's file name.
pub open spec fn name_source(folder: FolderView, target: Seq<char>) -> Option<Seq<char>> {
    match folder.0 {
        Some(n) => Some(n),
        None => file_name(target),
    }
}

/// The link name of `folder`, whose resolved target is `target`.
pub fn folder_link_name(folder: &WorkspaceFolder, target: &str) -> (r: Result<LinkName, AppError>)
    ensures
        match name_source(folder@, target@) {
            None => r matches Err(AppError::FolderTargetMissingBasename { path }) && path@
                == target@,
            Some(n) => match link_name_issue(n) {
                None => r matches Ok(l) && l@ == n,
                Some(issue) => r matches Err(AppError::InvalidLinkName { name, reason }) && name@
                    == n && reason == issue,
            },
        },
{
    let name = match &folder.name {
        Some(n) => n.clone(),
        None => match crate::paths::file_name_of(target) {
            Some(n) => n,
            None => return Err(AppError::FolderTargetMissingBasename { path: target.to_owned() }),
        },
    };
    LinkName::new(name)
}

/// The lowercased keys of a list of link names.
pub open spec fn link_keys(names: Seq<Seq<char>>) -> Seq<Seq<char>> {
    names.map_values(|n: Seq<char>| unicode_lowercase(n))
}

/// Adding the folder whose name source is `n` to the names `taken`: the
/// name, or why it is refused.
pub open spec fn name_step(n: Option<Seq<char>>, taken: Seq<Seq<char>>) -> Result<Seq<char>, FolderFault> {
    match n {
        None => Err(FolderFault::MissingBasename),
        Some(n) => match link_name_issue(n) {
            Some(issue) => Err(FolderFault::InvalidName(issue)),
            None => if link_keys(taken).contains(unicode_lowercase(n)) {
                Err(FolderFault::Duplicate)
            } else {
                Ok(n)
            },
        },
    }
}

/// `e` reports the naming fault `fault` for the name source `n` of a folder
/// whose target is `target`.
pub open spec fn name_error(e: AppError, fault: FolderFault, n: Option<Seq<char>>, target: Seq<char>) -> bool {
    match fault {
        FolderFault::MissingBasename => e matches AppError::FolderTargetMissingBasename { path }
            && path@ == target,
        FolderFault::InvalidName(issue) => e matches AppError::InvalidLinkName { name, reason }
            && Some(name@) == n && reason == issue,
        FolderFault::Duplicate => e matches AppError::DuplicateFolderName { name } && Some(name@)
            == n,
        _ => false,
    }
}

fn contains_key(keys: &Vec<String>, key: &String) -> (r: bool)
    ensures
        r == keys@.map_values(|k: String| k@).contains(key@),
{
    let mut i: usize = 0;
    while i < keys.len()
        invariant
            i <= keys@.len(),
            forall|j: int| 0 <= j < i ==> keys@[j]@ != key@,
        decreases keys.len() - i,
    {
        if keys[i] == *key {
            proof {
                assert(keys@.map_values(|k: String| k@)[i as int] == key@);
            }
            return true;
        }
        i = i + 1;
    }
    proof {
        let ks = keys@.map_values(|k: String| k@);
        if ks.contains(key@) {
            let j = choose|j: int| 0 <= j < ks.len() && #[trigger] ks[j] == key@;
            assert(keys@[j]@ == key@);
        }
    }
    false
}

/// Takes the link name of `folder` (resolved to `target`) unless it is
/// unusable or collides with one of `keys`; on success its key joins `keys`.
fn claim_link_name(folder: &WorkspaceFolder, target: &str, keys: &mut Vec<String>, Ghost(taken): Ghost<Seq<Seq<char>>>) -> (r: Result<LinkName, AppError>)
    requires
        old(keys)@.map_values(|k: String| k@) == link_keys(taken),
    ensures
        match name_step(name_source(folder@, target@), taken) {
            Ok(n) => r matches Ok(l) && l@ == n && final(keys)@.map_values(|k: String| k@)
                == link_keys(taken.push(n)),
            Err(fault) => r matches Err(e) && name_error(e, fault, name_source(folder@, target@), target@),
        },
{
    let name = folder_link_name(folder, target)?;
    let key = case_insensitive_link_key(&name);
    if contains_key(keys, &key) {
        return Err(AppError::DuplicateFolderName { name: name.as_str().to_owned() });
    }
    let ghost old_keys = keys@;
    let ghost key_view = key@;
    keys.push(key);
    proof {
        let now = keys@.map_values(|k: String| k@);
        let want = link_keys(taken.push(name@));
        assert(old_keys == old(keys)@);
        assert(old_keys.map_values(|k: String| k@).len() == old_keys.len());
        assert(link_keys(taken).len() == taken.len());
        assert(keys@ == old_keys.push(keys@.last()));
        assert(now.len() == want.len());
        assert forall|i: int| 0 <= i < now.len() implies now[i] == want[i] by {
            if i < old_keys.len() {
                assert(old_keys.map_values(|k: String| k@)[i] == link_keys(taken)[i]);
                assert(taken.push(name@)[i] == taken[i]);
            }
        }
        assert(now =~= want);
    }
    Ok(name)
}

/// The names taken by a list of resolved folders.
pub open spec fn pair_names(pairs: Seq<(Seq<char>, Seq<char>)>) -> Seq<Seq<char>> {
    pairs.map_values(|x: (Seq<char>, Seq<char>)| x.0)
}

/// Resolving the first `n` folders for a dock, given the probes of their
/// paths: the (name, target) pairs, or the index of the first folder that
/// fails and why.
pub open spec fn dock_folders_upto(
    folders: Seq<FolderView>,
    probes: Seq<TargetProbe>,
    n: nat,
) -> Result<Seq<(Seq<char>, Seq<char>)>, (int, FolderFault)>
    decreases n,
{
    if n == 0 {
        Ok(Seq::empty())
    } else {
        match dock_folders_upto(folders, probes, (n - 1) as nat) {
            Err(e) => Err(e),
            Ok(done) => match probe_target(probes[n - 1]) {
                Err(f) => Err((n - 1, f)),
                Ok(t) => match name_step(name_source(folders[n - 1], t), pair_names(done)) {
                    Err(f) => Err((n - 1, f)),
                    Ok(name) => Ok(done.push((name, t))),
                },
            },
        }
    }
}

/// `e` reports `fault` for `folder`, whose path was resolved against `dir`
/// and probed as `probe`.
pub open spec fn dock_folder_error(
    e: AppError,
    fault: FolderFault,
    dir: Seq<char>,
    folder: FolderView,
    probe: TargetProbe,
) -> bool {
    match fault {
        FolderFault::Unresolved => target_error(e, join(dir, folder.1), probe),
        FolderFault::NotDirectory => target_error(e, join(dir, folder.1), probe),
        _ => match probe_target(probe) {
            Ok(t) => name_error(e, fault, name_source(folder, t), t),
            Err(_) => false,
        },
    }
}

/// The views of a list of folders.
pub open spec fn folder_views(folders: Seq<WorkspaceFolder>) -> Seq<FolderView> {
    folders.map_values(|f: WorkspaceFolder| f@)
}

/// The views of a list of resolved folders.
pub open spec fn resolved_views(folders: Seq<ResolvedFolder>) -> Seq<(Seq<char>, Seq<char>)> {
    folders.map_values(|f: ResolvedFolder| f@)
}

/// Resolving folders for folder mode: the targets of the first `n` probes,
/// or the index of the first that fails and why.
pub open spec fn targets_upto(probes: Seq<TargetProbe>, n: nat) -> Result<Seq<Seq<char>>, (int, FolderFault)>
    decreases n,
{
    if n == 0 {
        Ok(Seq::empty())
    } else {
        match targets_upto(probes, (n - 1) as nat) {
            Err(e) => Err(e),
            Ok(done) => match probe_target(probes[n - 1]) {
                Err(f) => Err((n - 1, f)),
                Ok(t) => Ok(done.push(t)),
            },
        }
    }
}

impl WorkspaceFile {
    /// The mode to open in: the one asked for, else the file's own, else
    /// folder mode when the file has no `zed-dock` section.
    pub fn open_mode(&self, cli_mode: Option<Mode>) -> (r: Result<Mode, AppError>)
        ensures
            match cli_mode {
                Some(m) => r == Ok::<Mode, AppError>(m),
                None => match self.zed_dock {
                    Some(config) => match config.mode {
                        Some(m) => r == Ok::<Mode, AppError>(m),
                        None => r matches Err(AppError::MissingDockMode),
                    },
                    None => r == Ok::<Mode, AppError>(Mode::Folders),
                },
            },
    {
        if let Some(mode) = cli_mode {
            return Ok(mode);
        }
        match &self.zed_dock {
            Some(config) => match config.mode {
                Some(m) => Ok(m),
                None => Err(AppError::MissingDockMode),
            },
            None => Ok(Mode::Folders),
        }
    }

    /// Where each folder path points before it is resolved: joined to the
    /// workspace file's directory unless absolute.
    pub fn folder_paths(&self, workspace_path: &str) -> (r: Result<Vec<String>, AppError>)
        ensures
            match crate::paths::parent(workspace_path@) {
                None => r matches Err(AppError::MissingWorkspaceParent),
                Some(dir) => r matches Ok(v) && v@.len() == self.folders@.len() && forall|i: int|
                    0 <= i < v@.len() ==> #[trigger] v@[i]@ == join(dir, self.folders@[i].path@),
            },
    {
        let dir = workspace_dir(workspace_path)?;
        let mut out: Vec<String> = Vec::new();
        let mut i: usize = 0;
        while i < self.folders.len()
            invariant
                i <= self.folders@.len(),
                out@.len() == i,
                crate::paths::parent(workspace_path@) == Some(dir@),
                forall|j: int| 0 <= j < i ==> #[trigger] out@[j]@ == join(dir@, self.folders@[j].path@),
            decreases self.folders.len() - i,
        {
            let p = join_path(dir.as_str(), self.folders[i].path.as_str());
            out.push(p);
            i = i + 1;
        }
        Ok(out)
    }

    /// The resolved folder targets, for folder mode; link names play no
    /// part. `probes[i]` is what the file system said of the `i`-th folder
    /// path, as [`WorkspaceFile::folder_paths`] gives it.
    pub fn folder_targets(&self, workspace_path: &str, probes: Vec<TargetProbe>) -> (r: Result<
        Vec<String>,
        AppError,
    >)
        requires
            probes@.len() == self.folders@.len(),
        ensures
            match crate::paths::parent(workspace_path@) {
                None => r matches Err(AppError::MissingWorkspaceParent),
                Some(dir) => match targets_upto(probes@, probes@.len()) {
                    Ok(ts) => r matches Ok(v) && v@.map_values(|s: String| s@) == ts,
                    Err((i, _)) => r matches Err(e) && target_error(
                        e,
                        join(dir, self.folders@[i].path@),
                        probes@[i],
                    ),
                },
            },
    {
        let dir = workspace_dir(workspace_path)?;
        let ghost all = probes@;
        let mut rest = probes;
        let mut out: Vec<String> = Vec::new();
        let mut i: usize = 0;
        proof {
            assert(out@.map_values(|s: String| s@) =~= Seq::<Seq<char>>::empty());
            assert(all.skip(0) =~= all);
        }
        while i < self.folders.len()
            invariant
                all == probes@,
                all.len() == self.folders@.len(),
                i <= all.len(),
                rest@ == all.skip(i as int),
                crate::paths::parent(workspace_path@) == Some(dir@),
                targets_upto(all, i as nat) == Ok::<Seq<Seq<char>>, (int, FolderFault)>(
                    out@.map_values(|s: String| s@),
                ),
            decreases self.folders.len() - i,
        {
            let probe = rest.remove(0);
            proof {
                assert(probe == all[i as int]);
                assert(rest@ =~= all.skip(i + 1));
            }
            let joined = join_path(dir.as_str(), self.folders[i].path.as_str());
            let ghost old_out = out@;
            match resolve_folder_target(joined.as_str(), probe) {
                Ok(t) => {
                    out.push(t);
                    proof {
                        assert(out@.map_values(|s: String| s@) =~= old_out.map_values(
                            |s: String| s@,
                        ).push(t@));
                    }
                },
                Err(e) => {
                    proof {
                        assert(probe_target(all[i as int]) is Err);
                        lemma_targets_upto_err(all, i as nat, all.len());
                        assert(target_error(e, join(dir@, self.folders@[i as int].path@), all[i as int]));
                        assert(targets_upto(all, all.len()) matches Err((k, _)) && k == i);
                    }
                    return Err(e);
                },
            }
            i = i + 1;
        }
        Ok(out)
    }
}

proof fn lemma_dock_folders_err(folders: Seq<FolderView>, probes: Seq<TargetProbe>, i: nat, n: nat)
    requires
        i < n <= probes.len(),
        dock_folders_upto(folders, probes, (i + 1) as nat) is Err,
        dock_folders_upto(folders, probes, i) is Ok,
    ensures
        dock_folders_upto(folders, probes, n) == dock_folders_upto(folders, probes, (i + 1) as nat),
        dock_folders_upto(folders, probes, n) matches Err((k, _)) && k == i,
    decreases n - i,
{
    if n > i + 1 {
        lemma_dock_folders_err(folders, probes, i, (n - 1) as nat);
    }
}

impl WorkspaceFile {
    /// The folders to link into a dock, with their link names. `probes[i]`
    /// is what the file system said of the `i`-th folder path, as
    /// [`WorkspaceFile::folder_paths`] gives it.
    pub fn resolved_dock_folders(&self, workspace_path: &str, probes: Vec<TargetProbe>) -> (r: Result<
        Vec<ResolvedFolder>,
        AppError,
    >)
        requires
            probes@.len() == self.folders@.len(),
        ensures
            match crate::paths::parent(workspace_path@) {
                None => r matches Err(AppError::MissingWorkspaceParent),
                Some(dir) => match dock_folders_upto(
                    folder_views(self.folders@),
                    probes@,
                    probes@.len(),
                ) {
                    Ok(pairs) => r matches Ok(v) && resolved_views(v@) == pairs,
                    Err((i, fault)) => r matches Err(e) && dock_folder_error(
                        e,
                        fault,
                        dir,
                        self.folders@[i]@,
                        probes@[i],
                    ),
                },
            },
    {
        let dir = workspace_dir(workspace_path)?;
        let ghost all = probes@;
        let ghost fviews = folder_views(self.folders@);
        let mut rest = probes;
        let mut out: Vec<ResolvedFolder> = Vec::new();
        let mut keys: Vec<String> = Vec::new();
        let mut i: usize = 0;
        proof {
            assert(resolved_views(out@) =~= Seq::<(Seq<char>, Seq<char>)>::empty());
            assert(keys@.map_values(|k: String| k@) =~= link_keys(Seq::<Seq<char>>::empty()));
            assert(all.skip(0) =~= all);
        }
        while i < self.folders.len()
            invariant
                all == probes@,
                fviews == folder_views(self.folders@),
                all.len() == self.folders@.len(),
                i <= all.len(),
                rest@ == all.skip(i as int),
                crate::paths::parent(workspace_path@) == Some(dir@),
                dock_folders_upto(fviews, all, i as nat) == Ok::<
                    Seq<(Seq<char>, Seq<char>)>,
                    (int, FolderFault),
                >(resolved_views(out@)),
                keys@.map_values(|k: String| k@) == link_keys(pair_names(resolved_views(out@))),
            decreases self.folders.len() - i,
        {
            let probe = rest.remove(0);
            proof {
                assert(probe == all[i as int]);
                assert(rest@ =~= all.skip(i + 1));
                assert(fviews[i as int] == self.folders@[i as int]@);
            }
            let folder = &self.folders[i];
            let joined = join_path(dir.as_str(), folder.path.as_str());
            let target = match resolve_folder_target(joined.as_str(), probe) {
                Ok(t) => t,
                Err(e) => {
                    proof {
                        assert(probe_target(all[i as int]) is Err);
                        lemma_dock_folders_err(fviews, all, i as nat, all.len());
                    }
                    return Err(e);
                },
            };
            let ghost taken = pair_names(resolved_views(out@));
            let name = match claim_link_name(folder, target.as_str(), &mut keys, Ghost(taken)) {
                Ok(n) => n,
                Err(e) => {
                    proof {
                        lemma_dock_folders_err(fviews, all, i as nat, all.len());
                    }
                    return Err(e);
                },
            };
            let ghost old_out = out@;
            let ghost pair = (name@, target@);
            out.push(ResolvedFolder { name, target });
            proof {
                assert(resolved_views(out@) =~= resolved_views(old_out).push(pair));
                assert(pair_names(resolved_views(out@)) =~= taken.push(pair.0));
            }
            i = i + 1;
        }
        Ok(out)
    }
}

/// What resolving folders for a dock gives when it succeeds: one folder
/// per folder of the file, in order, each with the target that folder mode
/// opens and with its own name or else its target's file name, every name a
/// valid link name, and no two names equal once lowercased.
pub proof fn lemma_dock_folders_summary(folders: Seq<FolderView>, probes: Seq<TargetProbe>, n: nat)
    requires
        n <= folders.len(),
        n <= probes.len(),
    ensures
        dock_folders_upto(folders, probes, n) matches Ok(pairs) ==> ({
            &&& pairs.len() == n
            &&& targets_upto(probes, n) matches Ok(ts) && ts.len() == n && forall|i: int|
                0 <= i < n ==> (#[trigger] pairs[i]).1 == ts[i] && name_source(folders[i], ts[i])
                    == Some(pairs[i].0)
            &&& forall|i: int| 0 <= i < n ==> link_name_issue((#[trigger] pairs[i]).0) is None
            &&& forall|i: int, j: int|
                0 <= i < j < n ==> unicode_lowercase((#[trigger] pairs[i]).0) != unicode_lowercase(
                    (#[trigger] pairs[j]).0,
                )
        }),
    decreases n,
{
    if n > 0 {
        lemma_dock_folders_summary(folders, probes, (n - 1) as nat);
        if let Ok(pairs) = dock_folders_upto(folders, probes, n) {
            let done = dock_folders_upto(folders, probes, (n - 1) as nat)->Ok_0;
            let t = probe_target(probes[n - 1])->Ok_0;
            let name = pairs[n - 1].0;
            assert(pairs == done.push((name, t)));
            let ts = targets_upto(probes, (n - 1) as nat)->Ok_0;
            assert(targets_upto(probes, n) == Ok::<Seq<Seq<char>>, (int, FolderFault)>(ts.push(t)));
            assert forall|i: int| 0 <= i < n implies (#[trigger] pairs[i]).1 == ts.push(t)[i]
                && name_source(folders[i], ts.push(t)[i]) == Some(pairs[i].0) by {
                if i < n - 1 {
                    assert(pairs[i] == done[i]);
                    assert(done[i].1 == ts[i]);
                    assert(ts.push(t)[i] == ts[i]);
                }
            }
            assert forall|i: int| 0 <= i < n implies link_name_issue((#[trigger] pairs[i]).0) is None by {
                if i < n - 1 {
                    assert(pairs[i] == done[i]);
                }
            }
            assert forall|i: int, j: int| 0 <= i < j < n implies unicode_lowercase(
                (#[trigger] pairs[i]).0,
            ) != unicode_lowercase((#[trigger] pairs[j]).0) by {
                assert(pairs[i] == done[i]);
                if j < n - 1 {
                    assert(pairs[j] == done[j]);
                } else {
                    let keys = link_keys(pair_names(done));
                    assert(!keys.contains(unicode_lowercase(name)));
                    assert(pair_names(done)[i] == done[i].0);
                    assert(keys[i] == unicode_lowercase(done[i].0));
                }
            }
        }
    }
}

proof fn lemma_targets_upto_err(probes: Seq<TargetProbe>, i: nat, n: nat)
    requires
        i < n <= probes.len(),
        targets_upto(probes, i) is Ok,
        probe_target(probes[i as int]) is Err,
    ensures
        targets_upto(probes, n) == Err::<Seq<Seq<char>>, (int, FolderFault)>(
            (i as int, probe_target(probes[i as int])->Err_0),
        ),
    decreases n - i,
{
    if n > i + 1 {
        lemma_targets_upto_err(probes, i, (n - 1) as nat);
    }
}

/// Naming the first `n` folders, each by its own path: the names taken, or
/// the index of the first folder that cannot be named and why.
pub open spec fn names_upto(folders: Seq<FolderView>, n: nat) -> Result<Seq<Seq<char>>, (int, FolderFault)>
    decreases n,
{
    if n == 0 {
        Ok(Seq::empty())
    } else {
        match names_upto(folders, (n - 1) as nat) {
            Err(e) => Err(e),
            Ok(done) => match name_step(name_source(folders[n - 1], folders[n - 1].1), done) {
                Err(f) => Err((n - 1, f)),
                Ok(name) => Ok(done.push(name)),
            },
        }
    }
}

proof fn lemma_names_index(folders: Seq<FolderView>, n: nat)
    ensures
        names_upto(folders, n) matches Err((i, _)) ==> 0 <= i < n,
    decreases n,
{
    if n > 0 {
        lemma_names_index(folders, (n - 1) as nat);
    }
}

proof fn lemma_names_err(folders: Seq<FolderView>, i: nat, n: nat)
    requires
        i < n <= folders.len(),
        names_upto(folders, (i + 1) as nat) is Err,
        names_upto(folders, i) is Ok,
    ensures
        names_upto(folders, n) == names_upto(folders, (i + 1) as nat),
    decreases n - i,
{
    if n > i + 1 {
        lemma_names_err(folders, i, (n - 1) as nat);
    }
}

/// Checks that the folders, each named after its own path, can be linked
/// side by side in a dock: every name is usable and no two collide when
/// lowercased.
pub fn validate_dock_link_names(folders: &Vec<WorkspaceFolder>) -> (r: Result<(), AppError>)
    ensures
        match names_upto(folder_views(folders@), folders@.len()) {
            Ok(_) => r is Ok,
            Err((i, fault)) => r matches Err(e) && name_error(
                e,
                fault,
                name_source(folders@[i]@, folders@[i].path@),
                folders@[i].path@,
            ),
        },
{
    let ghost fviews = folder_views(folders@);
    let mut keys: Vec<String> = Vec::new();
    let ghost mut taken: Seq<Seq<char>> = Seq::empty();
    let mut i: usize = 0;
    proof {
        assert(keys@.map_values(|k: String| k@) =~= link_keys(taken));
    }
    while i < folders.len()
        invariant
            fviews == folder_views(folders@),
            i <= folders@.len(),
            names_upto(fviews, i as nat) == Ok::<Seq<Seq<char>>, (int, FolderFault)>(taken),
            keys@.map_values(|k: String| k@) == link_keys(taken),
        decreases folders.len() - i,
    {
        let folder = &folders[i];
        proof {
            assert(fviews[i as int] == folder@);
        }
        match claim_link_name(folder, folder.path.as_str(), &mut keys, Ghost(taken)) {
            Ok(n) => {
                proof {
                    taken = taken.push(n@);
                }
            },
            Err(e) => {
                proof {
                    lemma_names_err(fviews, i as nat, folders@.len());
                }
                return Err(e);
            },
        }
        i = i + 1;
    }
    Ok(())
}

/// What creating a workspace makes of the path `path`, given the probe of
/// the path joined to the base directory.
pub open spec fn create_target(path: Seq<char>, probe: TargetProbe) -> Result<Seq<char>, FolderFault> {
    if path.len() == 0 {
        Err(FolderFault::EmptyPath)
    } else {
        probe_target(probe)
    }
}

/// The folder that creating a workspace records for `path`, relative to
/// `base_dir`: its resolved directory.
pub fn resolve_create_folder(base_dir: &str, path: &str, probe: TargetProbe) -> (r: Result<
    WorkspaceFolder,
    AppError,
>)
    ensures
        match create_target(path@, probe) {
            Ok(t) => r matches Ok(f) && f@ == (None::<Seq<char>>, t),
            Err(FolderFault::EmptyPath) => r matches Err(AppError::EmptyFolderPath),
            Err(_) => r matches Err(e) && target_error(e, join(base_dir@, path@), probe),
        },
{
    let v = chars_of(path);
    if v.len() == 0 {
        return Err(AppError::EmptyFolderPath);
    }
    let joined = join_path(base_dir, path);
    let target = resolve_folder_target(joined.as_str(), probe)?;
    Ok(WorkspaceFolder { name: None, path: target })
}

/// Creating the folders for the first `n` paths: their targets, or the
/// index of the first path that fails and why.
pub open spec fn create_targets_upto(paths: Seq<Seq<char>>, probes: Seq<TargetProbe>, n: nat) -> Result<Seq<Seq<char>>, (int, FolderFault)>
    decreases n,
{
    if n == 0 {
        Ok(Seq::empty())
    } else {
        match create_targets_upto(paths, probes, (n - 1) as nat) {
            Err(e) => Err(e),
            Ok(done) => match create_target(paths[n - 1], probes[n - 1]) {
                Err(f) => Err((n - 1, f)),
                Ok(t) => Ok(done.push(t)),
            },
        }
    }
}

proof fn lemma_create_err(paths: Seq<Seq<char>>, probes: Seq<TargetProbe>, i: nat, n: nat)
    requires
        i < n <= probes.len(),
        create_targets_upto(paths, probes, (i + 1) as nat) is Err,
        create_targets_upto(paths, probes, i) is Ok,
    ensures
        create_targets_upto(paths, probes, n) == create_targets_upto(paths, probes, (i + 1) as nat),
    decreases n - i,
{
    if n > i + 1 {
        lemma_create_err(paths, probes, i, (n - 1) as nat);
    }
}

/// Folders recorded with no name and the given paths.
pub open spec fn unnamed(targets: Seq<Seq<char>>) -> Seq<FolderView> {
    targets.map_values(|t: Seq<char>| (None::<Seq<char>>, t))
}

/// The folders a new workspace records for `paths`, relative to `base_dir`.
/// `probes[i]` is what the file system said of the `i`-th path joined to
/// `base_dir`. In symlink mode the folders must also be linkable side by side.
pub fn create_folders(paths: &Vec<String>, base_dir: &str, mode: Mode, probes: Vec<TargetProbe>) -> (r: Result<
    Vec<WorkspaceFolder>,
    AppError,
>)
    requires
        probes@.len() == paths@.len(),
    ensures
        match create_targets_upto(paths@.map_values(|p: String| p@), probes@, paths@.len()) {
            Err((i, FolderFault::EmptyPath)) => r matches Err(AppError::EmptyFolderPath),
            Err((i, _)) => r matches Err(e) && target_error(e, join(base_dir@, paths@[i]@), probes@[i]),
            Ok(targets) => if mode == Mode::Symlink {
                match names_upto(unnamed(targets), targets.len()) {
                    Ok(_) => r matches Ok(v) && folder_views(v@) == unnamed(targets),
                    Err((i, fault)) => r matches Err(e) && name_error(
                        e,
                        fault,
                        file_name(targets[i]),
                        targets[i],
                    ),
                }
            } else {
                r matches Ok(v) && folder_views(v@) == unnamed(targets)
            },
        },
{
    let ghost all = probes@;
    let ghost pviews = paths@.map_values(|p: String| p@);
    let mut rest = probes;
    let mut out: Vec<WorkspaceFolder> = Vec::new();
    let ghost mut targets: Seq<Seq<char>> = Seq::empty();
    let mut i: usize = 0;
    proof {
        assert(all.skip(0) =~= all);
        assert(folder_views(out@) =~= unnamed(targets));
    }
    while i < paths.len()
        invariant
            all == probes@,
            pviews == paths@.map_values(|p: String| p@),
            all.len() == paths@.len(),
            i <= all.len(),
            rest@ == all.skip(i as int),
            create_targets_upto(pviews, all, i as nat) == Ok::<Seq<Seq<char>>, (int, FolderFault)>(targets),
            folder_views(out@) == unnamed(targets),
        decreases paths.len() - i,
    {
        let probe = rest.remove(0);
        proof {
            assert(probe == all[i as int]);
            assert(rest@ =~= all.skip(i + 1));
            assert(pviews[i as int] == paths@[i as int]@);
        }
        match resolve_create_folder(base_dir, paths[i].as_str(), probe) {
            Ok(f) => {
                let ghost old_out = out@;
                proof {
                    targets = targets.push(f.path@);
                }
                out.push(f);
                proof {
                    assert(folder_views(out@) =~= folder_views(old_out).push(f@));
                    assert(unnamed(targets) =~= unnamed(targets.drop_last()).push((None::<Seq<char>>, f.path@)));
                }
            },
            Err(e) => {
                proof {
                    lemma_create_err(pviews, all, i as nat, all.len());
                }
                return Err(e);
            },
        }
        i = i + 1;
    }
    if mode == Mode::Symlink {
        proof {
            assert(folder_views(out@) == unnamed(targets));
            assert forall|k: int| 0 <= k < out@.len() implies name_source(
                #[trigger] folder_views(out@)[k],
                folder_views(out@)[k].1,
            ) == file_name(targets[k]) by {
                assert(folder_views(out@)[k] == unnamed(targets)[k]);
            }
        }
        match validate_dock_link_names(&out) {
            Ok(()) => {},
            Err(e) => {
                proof {
                    lemma_names_index(folder_views(out@), out@.len());
                    let k = names_upto(folder_views(out@), out@.len())->Err_0.0;
                    assert(folder_views(out@)[k] == out@[k]@);
                    assert(out@[k].path@ == targets[k]);
                }
                return Err(e);
            },
        }
    }
    Ok(out)
}

/// The generated workspace name for eight bytes: `ws-` and their lowercase hex.
pub open spec fn generated_name(bytes: Seq<u8>) -> Seq<char> {
    seq!['w', 's', '-'] + hex_lower(bytes)
}

/// A name that some eight bytes generate.
pub open spec fn is_generated_name(name: Seq<char>) -> bool {
    exists|bytes: Seq<u8>| bytes.len() == 8 && name == #[trigger] generated_name(bytes)
}

/// The generated workspace name for `bytes`.
pub fn generated_workspace_name_from_bytes(bytes: [u8; 8]) -> (r: String)
    ensures
        r@ == generated_name(bytes@),
{
    let mut name = String::new();
    name.append("ws-");
    let hex = hex_encode(bytes.as_slice());
    name.append(hex.as_str());
    proof {
        reveal_strlit("ws-");
        assert(name@ =~= generated_name(bytes@));
    }
    name
}

/// A fresh generated workspace name from eight random bytes.
pub fn generated_workspace_name() -> (r: Result<String, AppError>)
    ensures
        r matches Ok(name) ==> is_generated_name(name@),
        r matches Err(e) ==> e is Random,
{
    match random_bytes() {
        Ok(bytes) => {
            let name = generated_workspace_name_from_bytes(bytes);
            proof {
                assert(bytes@.len() == 8);
                assert(name@ == generated_name(bytes@));
            }
            Ok(name)
        },
        Err(e) => Err(AppError::Random(e)),
    }
}

/// `occupied` answered `answer` when asked about a path whose text is `path`.
pub open spec fn reported<F: Fn(String) -> bool>(occupied: F, path: Seq<char>, answer: bool) -> bool {
    exists|q: String| q@ == path && #[trigger] call_ensures(occupied, (q,), answer)
}

/// What looking for a path with a generated name in `dir` may give, where
/// `occupied` answered the questions it was asked: on success, a generated
/// name whose path was reported free, after fewer than sixteen generated
/// names whose paths were reported taken; on exhaustion, sixteen generated
/// names whose paths were all reported taken.
pub open spec fn generated_path_outcome<F: Fn(String) -> bool>(dir: Seq<char>, occupied: F, r: Result<String, AppError>) -> bool {
    &&& r matches Ok(p) ==> exists|tried: Seq<Seq<char>>, name: Seq<char>|
            tried.len() < GENERATED_NAME_ATTEMPTS && (forall|k: int|
                0 <= k < tried.len() ==> is_generated_name(#[trigger] tried[k]) && reported(
                    occupied,
                    workspace_path(dir, tried[k]),
                    true,
                )) && is_generated_name(name) && p@ == workspace_path(dir, name)
                && reported(occupied, p@, false)
    &&& r matches Err(e) ==> e is Random || (e is WorkspaceNameGenerationExhausted && exists|
            tried: Seq<Seq<char>>,
        |
            tried.len() == GENERATED_NAME_ATTEMPTS && forall|k: int|
                0 <= k < tried.len() ==> is_generated_name(#[trigger] tried[k]) && reported(occupied,
                    workspace_path(dir, tried[k]),
                    true,
                ))
}

/// A path inside `workspaces_dir` for a new workspace with a generated
/// name. `occupied` tells whether something is already at a path; up to
/// sixteen names are tried.
pub fn generated_workspace_path_in<F: Fn(String) -> bool>(workspaces_dir: &str, occupied: F) -> (r: Result<
    String,
    AppError,
>)
    requires
        forall|q: String| #[trigger] occupied.requires((q,)),
    ensures
        generated_path_outcome(workspaces_dir@, occupied, r),
{
    let ghost mut tried: Seq<Seq<char>> = Seq::empty();
    let mut attempt: usize = 0;
    while attempt < GENERATED_NAME_ATTEMPTS
        invariant
            attempt <= GENERATED_NAME_ATTEMPTS,
            tried.len() == attempt,
            forall|q: String| #[trigger] occupied.requires((q,)),
            forall|k: int|
                0 <= k < tried.len() ==> is_generated_name(#[trigger] tried[k]) && reported(occupied,
                    workspace_path(workspaces_dir@, tried[k]),
                    true,
                ),
        decreases GENERATED_NAME_ATTEMPTS - attempt,
    {
        let name = generated_workspace_name()?;
        let output = match workspace_path_in(workspaces_dir, name.as_str()) {
            Ok(o) => o,
            Err(e) => {
                proof {
                    lemma_generated_name_valid(name@);
                }
                return Err(e);
            },
        };
        let probe = output.clone();
        let taken = occupied(probe);
        if !taken {
            proof {
                assert(reported(occupied, output@, false));
                lemma_generated_name_valid(name@);
                assert(is_generated_name(name@));
            }
            return Ok(output);
        }
        proof {
            lemma_generated_name_valid(name@);
            assert(reported(occupied, output@, true));
            tried = tried.push(name@);
        }
        attempt = attempt + 1;
    }
    Err(AppError::WorkspaceNameGenerationExhausted)
}

/// Generated names are acceptable workspace names.
pub proof fn lemma_generated_name_valid(name: Seq<char>)
    requires
        is_generated_name(name),
    ensures
        workspace_name_issue(name) is None,
{
    let bytes = choose|bytes: Seq<u8>| bytes.len() == 8 && name == #[trigger] generated_name(bytes);
    crate::encoding::lemma_hex_lower_digits(bytes);
    let hex = hex_lower(bytes);
    assert(name.len() == 19);
    assert forall|k: int| 0 <= k < name.len() implies name[k] != '.' && name[k] != '/' && name[k]
        != '\\' && name[k] != '\0' by {
        if k >= 3 {
            assert(name[k] == hex[k - 3]);
        }
    }
    assert(!name.contains('.'));
    assert(!name.contains('/'));
    assert(!name.contains('\\'));
    assert(!name.contains('\0'));
    assert(name != seq!['.']);
    assert(name != seq!['.', '.']);
    lemma_single_segment(name);
}

/// A non-empty name without separators or dots is one relative component.
proof fn lemma_single_segment(name: Seq<char>)
    requires
        name.len() > 0,
        !name.contains('/'),
        !name.contains('.'),
    ensures
        crate::paths::is_simple_path(name),
{
    lemma_split_no_slash(name);
    assert(crate::paths::split_slash(name) =~= seq![name]);
    assert(seq![name].drop_last() =~= Seq::<Seq<char>>::empty());
    assert(name != seq!['.']) by {
        if name == seq!['.'] {
            assert(name.contains('.'));
        }
    }
    assert(crate::paths::is_named_segment(name));
    assert(crate::paths::keep_named(Seq::<Seq<char>>::empty()) =~= Seq::<Seq<char>>::empty());
    assert(crate::paths::keep_named(seq![name]) =~= seq![name]);
    assert(name[0] != '.') by {
        assert(name.contains(name[0]));
    }
}

proof fn lemma_split_no_slash(name: Seq<char>)
    requires
        !name.contains('/'),
    ensures
        crate::paths::split_slash(name) == seq![name],
    decreases name.len(),
{
    if name.len() > 0 {
        assert(!name.drop_last().contains('/')) by {
            if name.drop_last().contains('/') {
                let k = choose|k: int| 0 <= k < name.drop_last().len() && name.drop_last()[k] == '/';
                assert(name[k] == '/');
            }
        }
        lemma_split_no_slash(name.drop_last());
        assert(name.last() != '/') by {
            assert(name.contains(name.last()));
        }
        assert(name.drop_last().push(name.last()) =~= name);
        assert(seq![name.drop_last()].update(0, name.drop_last().push(name.last())) =~= seq![name]);
    } else {
        assert(name =~= Seq::<char>::empty());
    }
}

/// What resolving the reference `workspace` may give, where `occupied`
/// answered the questions it was asked (see `resolve_workspace_reference`).
pub open spec fn reference_outcome<F: Fn(String) -> bool>(
    workspace: Seq<char>,
    config_dir: Seq<char>,
    occupied: F,
    r: Result<String, AppError>,
) -> bool {
    &&& !crate::paths::is_simple_path(workspace) ==> (r matches Ok(p) && p@ == workspace)
    &&& crate::paths::is_simple_path(workspace) ==> ({
        let name = strip_workspace_suffix(workspace);
        let registered = workspace_path(registered_workspaces_dir(config_dir), name);
        match workspace_name_issue(name) {
            Some(issue) => r matches Err(AppError::InvalidWorkspaceName { name: n, reason }) && n@
                == name && reason == issue,
            None => match r {
                Ok(p) => (p@ == registered && reported(occupied, registered, true)) || (p@
                    == workspace && reported(occupied, registered, false) && reported(
                    occupied,
                    workspace,
                    true,
                )),
                Err(AppError::RegisteredWorkspaceNotFound { name: n }) => n@ == name && reported(
                    occupied,
                    registered,
                    false,
                ) && reported(occupied, workspace, false),
                Err(_) => false,
            },
        }
    })
}

/// Where a workspace reference leads. A reference that is not a single
/// relative component is a path and is taken as it is. A single component
/// names a registered workspace (with or without `.code-workspace`) under
/// the user config directory `config_dir`; when no such workspace exists
/// but something exists at the reference itself, the reference is taken as
/// a path. `occupied` tells whether something exists at a path.
pub fn resolve_workspace_reference<F: Fn(String) -> bool>(
    workspace: &str,
    config_dir: &str,
    occupied: F,
) -> (r: Result<String, AppError>)
    requires
        forall|q: String| #[trigger] occupied.requires((q,)),
    ensures
        reference_outcome(workspace@, config_dir@, occupied, r),
{
    if !crate::paths::path_is_simple(workspace) {
        return Ok(workspace.to_owned());
    }
    let name = strip_workspace_suffix_of(workspace);
    let path = registered_workspace_path(config_dir, name.as_str())?;
    let probe = path.clone();
    if occupied(probe) {
        return Ok(path);
    }
    let own = workspace.to_owned();
    if occupied(own) {
        return Ok(workspace.to_owned());
    }
    Err(AppError::RegisteredWorkspaceNotFound { name })
}

/// Where a new workspace file goes inside `dir`: the file for `name` when
/// one is given (refused if something is there and `force` is not set),
/// else a fresh generated name. `occupied` tells whether something exists
/// at a path.
pub fn workspace_output_path<F: Fn(String) -> bool>(
    dir: &str,
    name: Option<&str>,
    force: bool,
    occupied: F,
) -> (r: Result<String, AppError>)
    requires
        forall|q: String| #[trigger] occupied.requires((q,)),
    ensures
        match name {
            Some(n) => match workspace_name_issue(n@) {
                Some(issue) => r matches Err(AppError::InvalidWorkspaceName { name: m, reason })
                    && m@ == n@ && reason == issue,
                None => {
                    let p = workspace_path(dir@, n@);
                    match r {
                        Ok(q) => q@ == p && (force || reported(occupied, p, false)),
                        Err(AppError::WorkspaceAlreadyExists { path: q }) => q@ == p && !force
                            && reported(occupied, p, true),
                        Err(_) => false,
                    }
                },
            },
            None => generated_path_outcome(dir@, occupied, r),
        },
{
    match name {
        Some(n) => {
            let output = workspace_path_in(dir, n)?;
            let probe = output.clone();
            let present = occupied(probe);
            proof {
                assert(reported(occupied, output@, present));
            }
            ensure_can_write_workspace(output.as_str(), present, force)?;
            Ok(output)
        },
        None => generated_workspace_path_in(dir, occupied),
    }
}

/// The document written for a new workspace: the folders and the mode.
pub fn workspace_document(mode: Mode, folders: Vec<WorkspaceFolder>) -> (r: WorkspaceFile)
    ensures
        r.folders@ == folders@,
        r.zed_dock == Some(DockConfig { mode: Some(mode) }),
{
    WorkspaceFile { folders, zed_dock: Some(DockConfig { mode: Some(mode) }) }
}

/// A registered workspace: its name and the path of its file.
#[derive(Debug)]
pub struct RegisteredWorkspace {
    pub name: String,
    pub path: String,
}

impl View for RegisteredWorkspace {
    type V = (Seq<char>, Seq<char>);

    open spec fn view(&self) -> (Seq<char>, Seq<char>) {
        (self.name@, self.path@)
    }
}

/// The registered workspace that a directory entry at `path` stands for:
/// a `.code-workspace` file, named after its stem.
pub open spec fn registered_entry(path: Seq<char>) -> Option<(Seq<char>, Seq<char>)> {
    if crate::paths::extension(path) == Some(WORKSPACE_EXTENSION@) {
        match crate::paths::file_stem(path) {
            Some(stem) => Some((stem, path)),
            None => None,
        }
    } else {
        None
    }
}

/// The registered workspaces among directory entries, in entry order.
pub open spec fn registered_entries(paths: Seq<Seq<char>>) -> Seq<(Seq<char>, Seq<char>)>
    decreases paths.len(),
{
    if paths.len() == 0 {
        Seq::empty()
    } else {
        let rest = registered_entries(paths.drop_last());
        match registered_entry(paths.last()) {
            Some(e) => rest.push(e),
            None => rest,
        }
    }
}

/// `ws` is ordered by name, compared by bytes.
pub open spec fn sorted_by_name(ws: Seq<(Seq<char>, Seq<char>)>) -> bool {
    forall|i: int, j: int|
        0 <= i < j < ws.len() ==> crate::order::text_le(#[trigger] ws[i].0, #[trigger] ws[j].0)
}

/// The views of a list of registered workspaces.
pub open spec fn registered_views(ws: Seq<RegisteredWorkspace>) -> Seq<(Seq<char>, Seq<char>)> {
    ws.map_values(|w: RegisteredWorkspace| w@)
}

/// Where `x` goes in the list `s`, scanning from index `i`: before the
/// first entry whose name comes later than its own.
pub open spec fn insert_position_from(s: Seq<(Seq<char>, Seq<char>)>, x: (Seq<char>, Seq<char>), i: int) -> int
    decreases s.len() - i,
{
    if i < 0 || i >= s.len() {
        s.len() as int
    } else if !crate::order::text_le(s[i].0, x.0) {
        i
    } else {
        insert_position_from(s, x, i + 1)
    }
}

/// `s` with `x` inserted after every entry whose name does not come later.
pub open spec fn insert_by_name_spec(s: Seq<(Seq<char>, Seq<char>)>, x: (Seq<char>, Seq<char>)) -> Seq<(Seq<char>, Seq<char>)> {
    s.insert(insert_position_from(s, x, 0), x)
}

/// `s` ordered by name, entries with equal names kept in their order.
pub open spec fn sorted_entries(s: Seq<(Seq<char>, Seq<char>)>) -> Seq<(Seq<char>, Seq<char>)>
    decreases s.len(),
{
    if s.len() == 0 {
        Seq::empty()
    } else {
        insert_by_name_spec(sorted_entries(s.drop_last()), s.last())
    }
}

/// Inserts `w` into the name-ordered list `out`, after every entry whose
/// name does not come later.
fn insert_by_name(out: &mut Vec<RegisteredWorkspace>, w: RegisteredWorkspace)
    requires
        sorted_by_name(registered_views(old(out)@)),
    ensures
        registered_views(final(out)@) == insert_by_name_spec(registered_views(old(out)@), w@),
        sorted_by_name(registered_views(final(out)@)),
        registered_views(final(out)@).to_multiset() == registered_views(old(out)@).to_multiset().insert(w@),
{
    let ghost before = registered_views(out@);
    let mut p: usize = 0;
    while p < out.len() && crate::order::str_le(out[p].name.as_str(), w.name.as_str())
        invariant
            p <= out@.len(),
            before == registered_views(out@),
            forall|k: int| 0 <= k < p ==> crate::order::text_le(#[trigger] before[k].0, w@.0),
            insert_position_from(before, w@, 0) == insert_position_from(before, w@, p as int),
        decreases out.len() - p,
    {
        proof {
            assert(before[p as int] == out@[p as int]@);
        }
        p = p + 1;
    }
    proof {
        if p < before.len() {
            assert(before[p as int] == out@[p as int]@);
        }
        assert(insert_position_from(before, w@, p as int) == p);
        if p < before.len() {
            assert(!crate::order::text_le(before[p as int].0, w@.0));
            crate::order::lemma_bytes_le_total(
                vstd::utf8::encode_utf8(before[p as int].0),
                vstd::utf8::encode_utf8(w@.0),
            );
        }
    }
    let ghost item = w@;
    out.insert(p, w);
    proof {
        let now = registered_views(out@);
        assert(now =~= before.insert(p as int, item));
        before.insert_ensures(p as int, item);
        assert forall|i: int, j: int| 0 <= i < j < now.len() implies crate::order::text_le(
            #[trigger] now[i].0,
            #[trigger] now[j].0,
        ) by {
            if j < p {
                assert(now[i] == before[i] && now[j] == before[j]);
            } else if j == p {
                assert(now[i] == before[i]);
            } else if i == p {
                assert(now[j] == before[j - 1]);
                if j - 1 > p {
                    assert(crate::order::text_le(before[p as int].0, before[j - 1].0));
                    crate::order::lemma_bytes_le_trans(
                        vstd::utf8::encode_utf8(item.0),
                        vstd::utf8::encode_utf8(before[p as int].0),
                        vstd::utf8::encode_utf8(before[j - 1].0),
                    );
                }
            } else if i < p {
                assert(now[i] == before[i] && now[j] == before[j - 1]);
            } else {
                assert(now[i] == before[i - 1] && now[j] == before[j - 1]);
            }
        }
        assert(now.remove(p as int) =~= before);
        broadcast use vstd::seq_lib::group_to_multiset_ensures;
        assert(now.to_multiset().remove(item) =~= before.to_multiset());
        assert(now.to_multiset().count(item) > 0);
        assert(now.to_multiset() =~= before.to_multiset().insert(item));
    }
}

/// The registered workspaces found among the entries of the registry
/// directory (each entry given by its path): the `.code-workspace` files,
/// named after their stems, ordered by name.
pub fn registered_workspaces_from_entries(entries: &Vec<String>) -> (r: Vec<RegisteredWorkspace>)
    ensures
        registered_views(r@) == sorted_entries(registered_entries(entries@.map_values(|p: String| p@))),
        sorted_by_name(registered_views(r@)),
        registered_views(r@).to_multiset() == registered_entries(
            entries@.map_values(|p: String| p@),
        ).to_multiset(),
        forall|k: int|
            0 <= k < entries@.len() && crate::paths::extension(#[trigger] entries@[k]@) == Some(
                WORKSPACE_EXTENSION@,
            ) && crate::paths::file_stem(entries@[k]@) is Some ==> registered_views(r@).contains(
                (crate::paths::file_stem(entries@[k]@)->Some_0, entries@[k]@),
            ),
        forall|name: Seq<char>, path: Seq<char>|
            #[trigger] registered_views(r@).contains((name, path)) ==> entries@.map_values(
                |p: String| p@,
            ).contains(path) && crate::paths::extension(path) == Some(WORKSPACE_EXTENSION@)
                && crate::paths::file_stem(path) == Some(name),
{
    let ghost pviews = entries@.map_values(|p: String| p@);
    let mut out: Vec<RegisteredWorkspace> = Vec::new();
    let mut i: usize = 0;
    proof {
        assert(registered_views(out@) =~= Seq::<(Seq<char>, Seq<char>)>::empty());
        assert(pviews.take(0) =~= Seq::<Seq<char>>::empty());
        broadcast use vstd::seq_lib::group_to_multiset_ensures;
        assert(registered_entries(pviews.take(0)) =~= Seq::<(Seq<char>, Seq<char>)>::empty());
        assert(registered_views(out@).to_multiset() =~= registered_entries(pviews.take(0)).to_multiset());
    }
    while i < entries.len()
        invariant
            pviews == entries@.map_values(|p: String| p@),
            i <= entries@.len(),
            registered_views(out@) == sorted_entries(registered_entries(pviews.take(i as int))),
            sorted_by_name(registered_views(out@)),
            registered_views(out@).to_multiset() == registered_entries(pviews.take(i as int)).to_multiset(),
        decreases entries.len() - i,
    {
        let path = &entries[i];
        proof {
            assert(pviews.take(i + 1).drop_last() =~= pviews.take(i as int));
            assert(pviews.take(i + 1).last() == path@);
        }
        if crate::paths::has_extension(path.as_str(), WORKSPACE_EXTENSION) {
            match crate::paths::file_stem_of(path.as_str()) {
                Some(stem) => {
                    let w = RegisteredWorkspace { name: stem, path: path.clone() };
                    insert_by_name(&mut out, w);
                    proof {
                        broadcast use vstd::seq_lib::group_to_multiset_ensures;
                        let prev = registered_entries(pviews.take(i as int));
                        assert(registered_entries(pviews.take(i + 1)) == prev.push(w@));
                        assert(prev.push(w@).drop_last() =~= prev);
                        assert(sorted_entries(prev.push(w@)) == insert_by_name_spec(
                            sorted_entries(prev),
                            w@,
                        ));
                    }
                },
                None => {
                    proof {
                        assert(registered_entries(pviews.take(i + 1)) == registered_entries(
                            pviews.take(i as int),
                        ));
                    }
                },
            }
        } else {
            proof {
                assert(registered_entries(pviews.take(i + 1)) == registered_entries(
                    pviews.take(i as int),
                ));
            }
        }
        i = i + 1;
    }
    proof {
        assert(pviews.take(entries@.len() as int) =~= pviews);
        broadcast use vstd::seq_lib::group_to_multiset_ensures;
        lemma_listing_is_the_workspace_files(pviews);
        let listed = registered_views(out@);
        let found = registered_entries(pviews);
        assert forall|k: int|
            0 <= k < entries@.len() && crate::paths::extension(#[trigger] entries@[k]@) == Some(
                WORKSPACE_EXTENSION@,
            ) && crate::paths::file_stem(entries@[k]@) is Some implies listed.contains(
            (crate::paths::file_stem(entries@[k]@)->Some_0, entries@[k]@),
        ) by {
            assert(pviews[k] == entries@[k]@);
            let e = (crate::paths::file_stem(entries@[k]@)->Some_0, entries@[k]@);
            assert(found.contains(e));
            assert(found.to_multiset().count(e) > 0);
            assert(listed.to_multiset().count(e) > 0);
        }
        assert forall|name: Seq<char>, path: Seq<char>|
            #[trigger] listed.contains((name, path)) implies pviews.contains(path)
            && crate::paths::extension(path) == Some(WORKSPACE_EXTENSION@) && crate::paths::file_stem(
            path,
        ) == Some(name) by {
            assert(listed.to_multiset().count((name, path)) > 0);
            assert(found.to_multiset().count((name, path)) > 0);
            assert(found.contains((name, path)));
        }
    }
    out
}

/// On Unix the link name rules come down to five: a link name is refused
/// exactly when it is empty, is `.` or `..`, holds a NUL byte, holds `/` or
/// `\`, or equals `.zed-dock.json` or the dock lock file `.zwd-lock.json`
/// up to ASCII case.
pub proof fn lemma_link_name_rules(name: Seq<char>)
    ensures
        link_name_issue(name) is None <==> (name.len() > 0 && name != seq!['.'] && name != seq![
            '.',
            '.',
        ] && !name.contains('\0') && !name.contains('/') && !name.contains('\\')
            && !is_dock_metadata_name(name)),
{
    if name.len() > 0 && name != seq!['.'] && name != seq!['.', '.'] && !name.contains('/') {
        lemma_split_no_slash(name);
        assert(crate::paths::split_slash(name) =~= seq![name]);
        assert(seq![name].drop_last() =~= Seq::<Seq<char>>::empty());
        assert(crate::paths::is_named_segment(name));
        assert(crate::paths::keep_named(Seq::<Seq<char>>::empty()) =~= Seq::<Seq<char>>::empty());
        assert(crate::paths::keep_named(seq![name]) =~= seq![name]);
        assert(!is_absolute(name)) by {
            if is_absolute(name) {
                assert(name.contains(name[0]));
            }
        }
        assert(!has_cur_dir(name)) by {
            if has_cur_dir(name) {
                if name.len() == 1 {
                    assert(name =~= seq!['.']);
                } else {
                    assert(name.contains(name[1]));
                }
            }
        }
    }
}

/// The workspace name rules come down to five: a name is refused exactly
/// when it is empty or holds a NUL byte, `/`, `\` or `.`; every other name,
/// spaces and all other characters included, is a single relative path
/// component and is accepted.
pub proof fn lemma_workspace_name_rules(name: Seq<char>)
    ensures
        workspace_name_issue(name) is None <==> (name.len() > 0 && !name.contains('\0')
            && !name.contains('/') && !name.contains('\\') && !name.contains('.')),
{
    if name.len() > 0 && !name.contains('/') && !name.contains('.') {
        assert(name.contains(name[0]));
        assert(name != seq!['.']) by {
            if name == seq!['.'] {
                assert(name[0] == '.');
            }
        }
        assert(name != seq!['.', '.']) by {
            if name == seq!['.', '.'] {
                assert(name[0] == '.');
            }
        }
        lemma_split_no_slash(name);
        assert(crate::paths::split_slash(name) =~= seq![name]);
        assert(seq![name].drop_last() =~= Seq::<Seq<char>>::empty());
        assert(crate::paths::is_named_segment(name));
        assert(crate::paths::keep_named(Seq::<Seq<char>>::empty()) =~= Seq::<Seq<char>>::empty());
        assert(crate::paths::keep_named(seq![name]) =~= seq![name]);
        assert(!is_absolute(name));
        assert(!has_cur_dir(name));
        assert(crate::paths::is_simple_path(name));
    }
    if name == seq!['.'] || name == seq!['.', '.'] {
        assert(name.contains(name[0]));
    }
}

proof fn lemma_registered_entries_members(paths: Seq<Seq<char>>)
    ensures
        forall|k: int|
            0 <= k < paths.len() && #[trigger] registered_entry(paths[k]) is Some
                ==> registered_entries(paths).contains(registered_entry(paths[k])->Some_0),
        forall|e: (Seq<char>, Seq<char>)|
            #[trigger] registered_entries(paths).contains(e) ==> exists|k: int|
                0 <= k < paths.len() && registered_entry(paths[k]) == Some(e),
    decreases paths.len(),
{
    if paths.len() > 0 {
        let init = paths.drop_last();
        lemma_registered_entries_members(init);
        let rest = registered_entries(init);
        let all = registered_entries(paths);
        assert forall|k: int|
            0 <= k < paths.len() && #[trigger] registered_entry(paths[k]) is Some implies all.contains(
            registered_entry(paths[k])->Some_0,
        ) by {
            if k < init.len() {
                assert(init[k] == paths[k]);
                assert(registered_entry(init[k]) is Some);
                let e = registered_entry(paths[k])->Some_0;
                assert(rest.contains(e));
                let j = choose|j: int| 0 <= j < rest.len() && rest[j] == e;
                assert(all[j] == e);
            } else {
                assert(paths[k] == paths.last());
                assert(all.last() == registered_entry(paths[k])->Some_0);
                assert(all[all.len() - 1] == all.last());
            }
        }
        assert forall|e: (Seq<char>, Seq<char>)| #[trigger] all.contains(e) implies exists|k: int|
            0 <= k < paths.len() && registered_entry(paths[k]) == Some(e) by {
            let j = choose|j: int| 0 <= j < all.len() && all[j] == e;
            if j < rest.len() {
                assert(all[j] == rest[j]);
                assert(rest.contains(e));
                let k = choose|k: int| 0 <= k < init.len() && registered_entry(init[k]) == Some(e);
                assert(paths[k] == init[k]);
            } else {
                assert(registered_entry(paths[paths.len() - 1]) == Some(e));
            }
        }
    }
}

/// Listing finds every workspace file and nothing else: among directory
/// entries, one is listed exactly when its extension is `code-workspace`
/// and it has a file stem, and it is listed under that stem.
pub proof fn lemma_listing_is_the_workspace_files(paths: Seq<Seq<char>>)
    ensures
        forall|k: int|
            0 <= k < paths.len() && crate::paths::extension(#[trigger] paths[k]) == Some(
                WORKSPACE_EXTENSION@,
            ) && crate::paths::file_stem(paths[k]) is Some ==> registered_entries(paths).contains(
                (crate::paths::file_stem(paths[k])->Some_0, paths[k]),
            ),
        forall|name: Seq<char>, path: Seq<char>|
            #[trigger] registered_entries(paths).contains((name, path)) ==> paths.contains(path)
                && crate::paths::extension(path) == Some(WORKSPACE_EXTENSION@)
                && crate::paths::file_stem(path) == Some(name),
{
    lemma_registered_entries_members(paths);
    assert forall|k: int|
        0 <= k < paths.len() && crate::paths::extension(#[trigger] paths[k]) == Some(
            WORKSPACE_EXTENSION@,
        ) && crate::paths::file_stem(paths[k]) is Some implies registered_entries(paths).contains(
        (crate::paths::file_stem(paths[k])->Some_0, paths[k]),
    ) by {
        assert(registered_entry(paths[k]) is Some);
    }
    assert forall|name: Seq<char>, path: Seq<char>|
        #[trigger] registered_entries(paths).contains((name, path)) implies paths.contains(path)
        && crate::paths::extension(path) == Some(WORKSPACE_EXTENSION@) && crate::paths::file_stem(
        path,
    ) == Some(name) by {
        let k = choose|k: int| 0 <= k < paths.len() && registered_entry(paths[k]) == Some((name, path));
        assert(paths[k] == path);
    }
}

/// Opening by reference, when whether something exists at a path is a
/// fixed fact `present` of the path: a reference that is not a single
/// relative component is taken as it is; otherwise, for the name without
/// `.code-workspace`, an invalid name is refused, an existing registered
/// workspace wins even over a file of that name here, else an existing file
/// at the reference is taken, else the registered workspace is not found.
pub proof fn lemma_reference_by_presence<F: Fn(String) -> bool>(
    workspace: Seq<char>,
    config_dir: Seq<char>,
    occupied: F,
    present: spec_fn(Seq<char>) -> bool,
    r: Result<String, AppError>,
)
    requires
        forall|q: String, b: bool| #[trigger] call_ensures(occupied, (q,), b) ==> b == present(q@),
        reference_outcome(workspace, config_dir, occupied, r),
    ensures
        !crate::paths::is_simple_path(workspace) ==> (r matches Ok(p) && p@ == workspace),
        crate::paths::is_simple_path(workspace) ==> ({
            let name = strip_workspace_suffix(workspace);
            let registered = workspace_path(registered_workspaces_dir(config_dir), name);
            match workspace_name_issue(name) {
                Some(issue) => r matches Err(AppError::InvalidWorkspaceName { name: n, reason })
                    && n@ == name && reason == issue,
                None => if present(registered) {
                    r matches Ok(p) && p@ == registered
                } else if present(workspace) {
                    r matches Ok(p) && p@ == workspace
                } else {
                    r matches Err(AppError::RegisteredWorkspaceNotFound { name: n }) && n@ == name
                },
            }
        }),
{
    assert forall|p: Seq<char>, b: bool| reported(occupied, p, b) implies b == present(p) by {
        let q = choose|q: String| q@ == p && #[trigger] call_ensures(occupied, (q,), b);
    }
    if crate::paths::is_simple_path(workspace) {
        let name = strip_workspace_suffix(workspace);
        let registered = workspace_path(registered_workspaces_dir(config_dir), name);
        if workspace_name_issue(name) is None {
            if r is Ok {
                if !present(registered) && r->Ok_0@ == registered {
                    assert(!reported(occupied, registered, true));
                }
            }
        }
    }
}

/// A registered workspace can be opened by its name with or without the
/// `.code-workspace` extension: for an acceptable name, both references
/// are single components and lead to the same registered name.
pub proof fn lemma_reference_with_or_without_extension(name: Seq<char>)
    requires
        workspace_name_issue(name) is None,
    ensures
        crate::paths::is_simple_path(name),
        crate::paths::is_simple_path(workspace_file_name(name)),
        strip_workspace_suffix(name) == name,
        strip_workspace_suffix(workspace_file_name(name)) == name,
{
    let suffix = seq!['.'] + WORKSPACE_EXTENSION@;
    let full = workspace_file_name(name);
    reveal_strlit("code-workspace");
    assert(WORKSPACE_EXTENSION@ =~= seq!['c', 'o', 'd', 'e', '-', 'w', 'o', 'r', 'k', 's', 'p', 'a', 'c', 'e']);
    assert(full =~= name + suffix);
    assert(full.subrange(full.len() - suffix.len(), full.len() as int) =~= suffix);
    assert(full.subrange(0, full.len() - suffix.len()) =~= name);
    assert(!ends_with(name, suffix)) by {
        if ends_with(name, suffix) {
            assert(name.subrange(name.len() - suffix.len(), name.len() as int)[0] == '.');
            assert(name.contains('.'));
        }
    }
    assert(!name.contains('/'));
    assert forall|k: int| 0 <= k < full.len() implies full[k] != '/' by {
        if k >= name.len() {
            assert(full[k] == suffix[k - name.len()]);
        } else {
            assert(full[k] == name[k]);
        }
    }
    assert(!full.contains('/'));
    assert(full[0] == name[0]);
    assert(name[0] != '.') by {
        assert(name.contains(name[0]));
    }
    lemma_split_no_slash(full);
    assert(crate::paths::split_slash(full) =~= seq![full]);
    assert(seq![full].drop_last() =~= Seq::<Seq<char>>::empty());
    assert(crate::paths::keep_named(Seq::<Seq<char>>::empty()) =~= Seq::<Seq<char>>::empty());
    assert(full != seq!['.']);
    assert(crate::paths::is_named_segment(full));
    assert(crate::paths::keep_named(seq![full]) =~= seq![full]);
}

} // verus!
