//! Installing the global Zed tasks: where the tasks file lives, and how the
//! bundled task templates are merged into it.

use vstd::prelude::*;
use vstd::string::StringExecFns;
use crate::error::AppError;
use crate::paths::{join, join_path, named_components, views};

verus! {

/// `serde_json::Value`: a JSON document, seen through the names below.
#[verifier::external_type_specification]
#[verifier::external_body]
pub struct ExJsonValue(serde_json::Value);

/// The bundled Zed task templates, a JSON array: each opens the file that
/// is open in Zed, as a workspace, by the command that is installed.
pub const TASK_TEMPLATES: &'static str = r#"[
  {
    "label": "Zed Workspace Dock: Open",
    "command": "__ZED_WORKSPACE_DOCK_COMMAND__",
    "args": ["open", "$ZED_FILE"],
    "reveal": "never",
    "hide": "on_success"
  },
  {
    "label": "Zed Workspace Dock: Open Folders",
    "command": "__ZED_WORKSPACE_DOCK_COMMAND__",
    "args": ["open", "$ZED_FILE", "--mode", "folders"],
    "reveal": "never",
    "hide": "on_success"
  },
  {
    "label": "Zed Workspace Dock: Open Symlink Dock",
    "command": "__ZED_WORKSPACE_DOCK_COMMAND__",
    "args": ["open", "$ZED_FILE", "--mode", "symlink"],
    "reveal": "never",
    "hide": "on_success"
  }
]
"#;

/// The placeholder that every task template holds as its command.
pub const COMMAND_PLACEHOLDER: &'static str = "__ZED_WORKSPACE_DOCK_COMMAND__";

/// Where Zed keeps its global tasks under a home directory.
pub open spec fn zed_tasks_file(home_dir: Seq<char>) -> Seq<char> {
    join(join(join(home_dir, ".config"@), "zed"@), "tasks.json"@)
}

/// The global Zed tasks file under `home_dir`.
pub fn zed_tasks_path(home_dir: &str) -> (r: String)
    ensures
        r@ == zed_tasks_file(home_dir@),
{
    let config = join_path(home_dir, ".config");
    let zed = join_path(config.as_str(), "zed");
    join_path(zed.as_str(), "tasks.json")
}

/// `p` runs from a build output directory: some component `target` is
/// followed, later, by a component `debug` or `release`.
pub open spec fn is_build_output(p: Seq<char>) -> bool {
    let comps = named_components(p);
    exists|i: int, j: int|
        0 <= i < j < comps.len() && #[trigger] comps[i] == "target"@ && (#[trigger] comps[j]
            == "debug"@ || comps[j] == "release"@)
}

/// Whether the command path lies in a build output directory.
pub fn is_target_binary(command: &str) -> (r: bool)
    ensures
        r == is_build_output(command@),
{
    let comps = crate::paths::components_of(command);
    let ghost cv = views(comps@);
    let mut seen_target = false;
    let ghost mut target_at: int = -1;
    let mut j: usize = 0;
    proof {
        assert(cv.len() == comps@.len());
    }
    while j < comps.len()
        invariant
            cv == views(comps@),
            cv == named_components(command@),
            cv.len() == comps@.len(),
            j <= comps@.len(),
            seen_target == (exists|i: int| 0 <= i < j && #[trigger] cv[i] == "target"@),
            seen_target ==> 0 <= target_at < j && cv[target_at] == "target"@,
            forall|i: int, k: int|
                0 <= i < k < j ==> !(#[trigger] cv[i] == "target"@ && (#[trigger] cv[k] == "debug"@
                    || cv[k] == "release"@)),
        decreases comps.len() - j,
    {
        let c = &comps[j];
        proof {
            assert(cv[j as int] == c@);
        }
        if seen_target && (crate::text::chars_eq(c, "debug") || crate::text::chars_eq(c, "release")) {
            proof {
                assert(cv[target_at] == "target"@ && (cv[j as int] == "debug"@ || cv[j as int]
                    == "release"@));
            }
            return true;
        }
        if crate::text::chars_eq(c, "target") {
            proof {
                if !seen_target {
                    target_at = j as int;
                }
            }
            seen_target = true;
        }
        j = j + 1;
    }
    false
}

/// Checks that the command to install exists, given whether it does.
pub fn ensure_install_command(command: &str, exists: bool) -> (r: Result<(), AppError>)
    ensures
        exists ==> r is Ok,
        !exists ==> (r matches Err(AppError::InstallCommandNotFound { path }) && path@ == command@),
{
    if !exists {
        return Err(AppError::InstallCommandNotFound { path: command.to_owned() });
    }
    Ok(())
}

/// A name for whether a JSON value is an object.
pub uninterp spec fn json_is_object(v: serde_json::Value) -> bool;

/// A name for the string members of a JSON object: each key whose value is
/// a JSON string, with that string.
pub uninterp spec fn json_text_members(v: serde_json::Value) -> Map<Seq<char>, Seq<char>>;

/// A name for the elements of a JSON array; `None` for any other value.
pub uninterp spec fn json_array_items(v: serde_json::Value) -> Option<Seq<serde_json::Value>>;

/// A name for the JSON value that a text holds; `None` where it is not JSON.
pub uninterp spec fn json_parse(text: Seq<char>) -> Option<serde_json::Value>;

/// A name for a JSON object with the member `key` set to the string `text`.
pub uninterp spec fn json_with_text_member(v: serde_json::Value, key: Seq<char>, text: Seq<char>) -> serde_json::Value;

/// Calls `serde_json::Value::is_object`.
#[verifier::external_body]
fn json_object_test(v: &serde_json::Value) -> (r: bool)
    ensures
        r == json_is_object(*v),
{
    v.is_object()
}

/// Calls `serde_json::Value::get` with a key, then `as_str`: the member
/// `key` of an object when it is a string.
#[verifier::external_body]
fn json_text_member(v: &serde_json::Value, key: &str) -> (r: Option<String>)
    ensures
        match r {
            Some(t) => json_text_members(*v).contains_key(key@) && json_text_members(*v)[key@] == t@,
            None => !json_text_members(*v).contains_key(key@),
        },
{
    v.get(key).and_then(serde_json::Value::as_str).map(str::to_string)
}

/// Calls `serde_json::Map::insert` on the object that `value` holds, with
/// the string `text` under `key`: the object keeps its other members and
/// `key` now holds `text`. A value that is not an object is left as it is.
#[verifier::external_body]
fn set_text_member(value: &mut serde_json::Value, key: &str, text: &str)
    ensures
        *final(value) == json_with_text_member(*old(value), key@, text@),
        json_is_object(*old(value)) ==> json_is_object(*final(value)) && json_text_members(
            *final(value),
        ) == json_text_members(*old(value)).insert(key@, text@),
        !json_is_object(*old(value)) ==> *final(value) == *old(value),
{
    if let serde_json::Value::Object(object) = value {
        object.insert(key.to_string(), serde_json::Value::String(text.to_string()));
    }
}

/// Calls `serde_json::from_str` for a JSON value.
#[verifier::external_body]
fn parse_json(text: &str) -> (r: Result<serde_json::Value, serde_json::Error>)
    ensures
        match r {
            Ok(v) => json_parse(text@) == Some(v),
            Err(_) => json_parse(text@) is None,
        },
{
    serde_json::from_str(text)
}

/// Calls `serde_json::from_str` for a list of JSON values: it reads a list
/// exactly where the text holds a JSON array.
#[verifier::external_body]
fn parse_json_list(text: &str) -> (r: Result<Vec<serde_json::Value>, serde_json::Error>)
    ensures
        match r {
            Ok(items) => json_parse(text@) matches Some(v) && json_array_items(v) == Some(items@),
            Err(_) => !(json_parse(text@) matches Some(v) && json_array_items(v) is Some),
        },
{
    serde_json::from_str(text)
}

/// Takes the elements out of a JSON array, or gives the value back.
#[verifier::external_body]
fn json_into_array(v: serde_json::Value) -> (r: Result<Vec<serde_json::Value>, serde_json::Value>)
    ensures
        match json_array_items(v) {
            Some(items) => r matches Ok(a) && a@ == items,
            None => r == Err::<Vec<serde_json::Value>, serde_json::Value>(v),
        },
{
    match v {
        serde_json::Value::Array(items) => Ok(items),
        other => Err(other),
    }
}

/// The label of a task, when it has a string one.
pub open spec fn task_label(t: serde_json::Value) -> Option<Seq<char>> {
    if json_text_members(t).contains_key("label"@) {
        Some(json_text_members(t)["label"@])
    } else {
        None
    }
}

/// The tasks that a tasks file holds: the elements of its JSON array.
pub open spec fn tasks_of_text(text: Seq<char>) -> Option<Seq<serde_json::Value>> {
    match json_parse(text) {
        Some(v) => json_array_items(v),
        None => None,
    }
}

/// The tasks of a tasks file, whose text must be a JSON array.
pub fn tasks_from_text(text: &str) -> (r: Result<Vec<serde_json::Value>, AppError>)
    ensures
        match json_parse(text@) {
            None => r matches Err(AppError::Json(_)),
            Some(v) => match json_array_items(v) {
                Some(items) => r matches Ok(tasks) && tasks@ == items,
                None => r matches Err(AppError::InvalidTasksJsonRoot),
            },
        },
{
    match parse_json(text) {
        Err(e) => Err(AppError::Json(e)),
        Ok(v) => match json_into_array(v) {
            Ok(items) => Ok(items),
            Err(_) => Err(AppError::InvalidTasksJsonRoot),
        },
    }
}

/// A template is well formed: an object whose command is the placeholder.
pub open spec fn template_ok(t: serde_json::Value) -> bool {
    json_is_object(t) && json_text_members(t).contains_key("command"@) && json_text_members(t)["command"@]
        == COMMAND_PLACEHOLDER@
}

/// `i` is the first template that is not well formed.
pub open spec fn first_bad_template(templates: Seq<serde_json::Value>, i: int) -> bool {
    0 <= i < templates.len() && !template_ok(templates[i]) && forall|k: int|
        0 <= k < i ==> template_ok(#[trigger] templates[k])
}

/// `e` is the error for the template `t`, which is not well formed.
pub open spec fn template_error(t: serde_json::Value, e: AppError) -> bool {
    if !json_is_object(t) {
        e is InvalidTaskTemplateRoot
    } else {
        e matches AppError::InvalidTaskTemplateCommand { placeholder: p } && p@
            == COMMAND_PLACEHOLDER@
    }
}

/// The template `t` made ready to install for `command`.
pub open spec fn prepared_template(t: serde_json::Value, command: Seq<char>) -> serde_json::Value {
    json_with_text_member(t, "command"@, command)
}

/// The templates made ready to install for `command`.
pub open spec fn prepared_templates(templates: Seq<serde_json::Value>, command: Seq<char>) -> Seq<serde_json::Value> {
    templates.map_values(|t: serde_json::Value| prepared_template(t, command))
}

/// Making the templates ready: `Ok` of the prepared templates when all are
/// well formed, else the error of the first that is not.
pub open spec fn templates_result_ok(templates: Seq<serde_json::Value>, command: Seq<char>, r: Result<Vec<serde_json::Value>, AppError>) -> bool {
    if forall|i: int| 0 <= i < templates.len() ==> template_ok(#[trigger] templates[i]) {
        r matches Ok(v) && v@ == prepared_templates(templates, command) && forall|i: int|
            0 <= i < v@.len() ==> json_is_object(#[trigger] v@[i]) && json_text_members(v@[i])
                == json_text_members(templates[i]).insert("command"@, command)
    } else {
        r matches Err(e) && exists|i: int|
            first_bad_template(templates, i) && template_error(templates[i], e)
    }
}

/// The labels of a list of tasks that all have one.
pub open spec fn task_labels(tasks: Seq<serde_json::Value>) -> Seq<Seq<char>> {
    tasks.map_values(|t: serde_json::Value| task_label(t)->Some_0)
}

/// The tasks that merging keeps: those without a label or with a label
/// no template manages, in order.
pub open spec fn unmanaged_tasks(tasks: Seq<serde_json::Value>, managed: Seq<Seq<char>>) -> Seq<serde_json::Value>
    decreases tasks.len(),
{
    if tasks.len() == 0 {
        Seq::empty()
    } else {
        let rest = unmanaged_tasks(tasks.drop_last(), managed);
        let t = tasks.last();
        if task_label(t) matches Some(l) && managed.contains(l) {
            rest
        } else {
            rest.push(t)
        }
    }
}

/// The tasks file after merging: the unmanaged tasks, then the templates.
pub open spec fn merged_tasks(tasks: Seq<serde_json::Value>, templates: Seq<serde_json::Value>) -> Seq<serde_json::Value> {
    unmanaged_tasks(tasks, task_labels(templates)) + templates
}

fn is_placeholder(c: &String) -> (r: bool)
    ensures
        r == (c@ == COMMAND_PLACEHOLDER@),
{
    let p = String::from_str(COMMAND_PLACEHOLDER);
    *c == p
}

fn labels_contain(labels: &Vec<String>, l: &String) -> (r: bool)
    ensures
        r == labels@.map_values(|x: String| x@).contains(l@),
{
    let ghost lv = labels@.map_values(|x: String| x@);
    let mut i: usize = 0;
    while i < labels.len()
        invariant
            lv == labels@.map_values(|x: String| x@),
            i <= labels@.len(),
            forall|j: int| 0 <= j < i ==> lv[j] != l@,
        decreases labels.len() - i,
    {
        if labels[i] == *l {
            proof {
                assert(lv[i as int] == l@);
            }
            return true;
        }
        i = i + 1;
    }
    proof {
        if lv.contains(l@) {
            let j = choose|j: int| 0 <= j < lv.len() && #[trigger] lv[j] == l@;
            assert(lv[j] != l@);
        }
    }
    false
}

/// Makes parsed templates ready to install: each must be a JSON object whose
/// command is the placeholder, which is then replaced by `command`. The
/// first template that is not well formed gives the error.
pub fn prepare_templates(templates: Vec<serde_json::Value>, command: &str) -> (r: Result<
    Vec<serde_json::Value>,
    AppError,
>)
    ensures
        templates_result_ok(templates@, command@, r),
{
    let n = templates.len();
    let mut i: usize = 0;
    while i < n
        invariant
            n == templates@.len(),
            i <= n,
            forall|k: int| 0 <= k < i ==> template_ok(#[trigger] templates@[k]),
        decreases n - i,
    {
        let t = &templates[i];
        let is_object = json_object_test(t);
        let ok_command = match json_text_member(t, "command") {
            Some(c) => is_placeholder(&c),
            None => false,
        };
        if !is_object {
            proof {
                assert(first_bad_template(templates@, i as int));
            }
            return Err(AppError::InvalidTaskTemplateRoot);
        }
        if !ok_command {
            proof {
                assert(first_bad_template(templates@, i as int));
            }
            return Err(AppError::InvalidTaskTemplateCommand { placeholder: COMMAND_PLACEHOLDER });
        }
        i = i + 1;
    }
    let mut rest = templates;
    let ghost all = rest@;
    let mut out: Vec<serde_json::Value> = Vec::new();
    let mut c: usize = 0;
    proof {
        assert(all.skip(0) =~= all);
        assert(out@ =~= prepared_templates(all.take(0), command@));
    }
    while c < n
        invariant
            n == all.len(),
            c <= n,
            rest@ == all.skip(c as int),
            out@ == prepared_templates(all.take(c as int), command@),
            forall|k: int| 0 <= k < n ==> template_ok(#[trigger] all[k]),
            forall|k: int|
                0 <= k < c ==> json_is_object(#[trigger] out@[k]) && json_text_members(out@[k])
                    == json_text_members(all[k]).insert("command"@, command@),
        decreases n - c,
    {
        let mut t = rest.remove(0);
        proof {
            assert(t == all[c as int]);
            assert(rest@ =~= all.skip(c + 1));
        }
        proof {
            assert(template_ok(all[c as int]));
        }
        set_text_member(&mut t, "command", command);
        let ghost before = out@;
        out.push(t);
        proof {
            assert(out@[c as int] == t);
            assert(all.take(c + 1) =~= all.take(c as int).push(all[c as int]));
            assert(out@ =~= prepared_templates(all.take(c + 1), command@));
        }
        c = c + 1;
    }
    proof {
        assert(all.take(n as int) =~= all);
    }
    Ok(out)
}

/// The bundled task templates, made ready to install for `command`.
pub fn task_templates(command: &str) -> (r: Result<Vec<serde_json::Value>, AppError>)
    ensures
        match json_parse(TASK_TEMPLATES@) {
            Some(v) => match json_array_items(v) {
                Some(templates) => templates_result_ok(templates, command@, r),
                None => r matches Err(AppError::Json(_)),
            },
            None => r matches Err(AppError::Json(_)),
        },
{
    match parse_json_list(TASK_TEMPLATES) {
        Err(e) => Err(AppError::Json(e)),
        Ok(templates) => prepare_templates(templates, command),
    }
}

/// Merges prepared templates into the tasks of the tasks file: every
/// template must have a string label; the tasks whose labels the templates
/// manage are dropped, the others kept in order, and the templates appended.
pub fn merge_managed_tasks(tasks: Vec<serde_json::Value>, templates: Vec<serde_json::Value>) -> (r: Result<
    Vec<serde_json::Value>,
    AppError,
>)
    ensures
        (exists|i: int| 0 <= i < templates@.len() && task_label(#[trigger] templates@[i]) is None)
            ==> (r matches Err(AppError::InvalidTaskTemplateLabel)),
        (forall|i: int| 0 <= i < templates@.len() ==> task_label(#[trigger] templates@[i]) is Some)
            ==> (r matches Ok(v) && v@ == merged_tasks(tasks@, templates@)),
{
    let n = templates.len();
    let ghost tv = templates@;
    let mut managed: Vec<String> = Vec::new();
    let mut j: usize = 0;
    proof {
        assert(managed@.map_values(|x: String| x@) =~= task_labels(tv.take(0)));
    }
    while j < n
        invariant
            n == templates@.len(),
            tv == templates@,
            j <= n,
            forall|k: int| 0 <= k < j ==> task_label(#[trigger] templates@[k]) is Some,
            managed@.len() == j,
            managed@.map_values(|x: String| x@) == task_labels(tv.take(j as int)),
        decreases n - j,
    {
        match json_text_member(&templates[j], "label") {
            Some(l) => {
                let ghost before = managed@;
                managed.push(l);
                proof {
                    let now = managed@.map_values(|x: String| x@);
                    let want = task_labels(tv.take(j + 1));
                    assert(want.len() == j + 1);
                    assert(tv.take(j + 1)[j as int] == tv[j as int]);
                    assert forall|q: int| 0 <= q < now.len() implies now[q] == want[q] by {
                        if q < j {
                            assert(before.map_values(|x: String| x@)[q] == task_labels(
                                tv.take(j as int),
                            )[q]);
                            assert(tv.take(j + 1)[q] == tv.take(j as int)[q]);
                        }
                    }
                    assert(now =~= want);
                }
            },
            None => {
                return Err(AppError::InvalidTaskTemplateLabel);
            },
        }
        j = j + 1;
    }
    proof {
        assert(tv.take(n as int) =~= tv);
    }
    let ghost mv = managed@.map_values(|x: String| x@);
    let ghost tall = tasks@;
    let mut rest = tasks;
    let mut out: Vec<serde_json::Value> = Vec::new();
    let m = rest.len();
    let mut k: usize = 0;
    proof {
        assert(tall.take(0) =~= Seq::<serde_json::Value>::empty());
        assert(out@ =~= Seq::<serde_json::Value>::empty());
        assert(rest@ =~= tall.skip(0));
    }
    while k < m
        invariant
            mv == managed@.map_values(|x: String| x@),
            mv == task_labels(tv),
            m == tall.len(),
            k <= m,
            rest@ == tall.skip(k as int),
            out@ == unmanaged_tasks(tall.take(k as int), mv),
        decreases m - k,
    {
        let task = rest.remove(0);
        proof {
            assert(task == tall[k as int]);
            assert(rest@ =~= tall.skip(k + 1));
            assert(tall.take(k + 1).drop_last() =~= tall.take(k as int));
        }
        let drop = match json_text_member(&task, "label") {
            Some(l) => labels_contain(&managed, &l),
            None => false,
        };
        if !drop {
            out.push(task);
        }
        k = k + 1;
    }
    proof {
        assert(tall.take(m as int) =~= tall);
    }
    let ghost kept = out@;
    let mut trest = templates;
    let mut c: usize = 0;
    proof {
        assert(tv.skip(0) =~= tv);
        assert(out@ =~= kept + tv.take(0));
    }
    while c < n
        invariant
            n == tv.len(),
            c <= n,
            trest@ == tv.skip(c as int),
            out@ == kept + tv.take(c as int),
        decreases n - c,
    {
        let t = trest.remove(0);
        proof {
            assert(t == tv[c as int]);
            assert(trest@ =~= tv.skip(c + 1));
        }
        out.push(t);
        proof {
            assert(out@ =~= kept + tv.take(c + 1));
        }
        c = c + 1;
    }
    proof {
        assert(tv.take(n as int) =~= tv);
    }
    Ok(out)
}

proof fn lemma_prepared_labels(templates: Seq<serde_json::Value>, prepared: Seq<serde_json::Value>, command: Seq<char>)
    requires
        prepared.len() == templates.len(),
        forall|i: int|
            0 <= i < prepared.len() ==> json_text_members(#[trigger] prepared[i])
                == json_text_members(templates[i]).insert("command"@, command),
    ensures
        forall|i: int|
            0 <= i < templates.len() ==> task_label(#[trigger] prepared[i]) == task_label(templates[i]),
{
    reveal_strlit("label");
    reveal_strlit("command");
    assert("label"@ != "command"@) by {
        assert("label"@[0] != "command"@[0]);
    }
    assert forall|i: int| 0 <= i < templates.len() implies task_label(#[trigger] prepared[i])
        == task_label(templates[i]) by {
        assert(json_text_members(prepared[i]).contains_key("label"@) == json_text_members(
            templates[i],
        ).contains_key("label"@));
    }
}

/// Merges the bundled templates, made ready for `command`, into the tasks
/// of the tasks file.
pub fn merge_tasks(tasks: Vec<serde_json::Value>, command: &str) -> (r: Result<
    Vec<serde_json::Value>,
    AppError,
>)
    ensures
        match json_parse(TASK_TEMPLATES@) {
            Some(v) => match json_array_items(v) {
                Some(templates) => if !(forall|i: int|
                    0 <= i < templates.len() ==> template_ok(#[trigger] templates[i])) {
                    r matches Err(e) && exists|i: int|
                        first_bad_template(templates, i) && template_error(templates[i], e)
                } else if exists|i: int|
                    0 <= i < templates.len() && task_label(#[trigger] templates[i]) is None {
                    r matches Err(AppError::InvalidTaskTemplateLabel)
                } else {
                    r matches Ok(merged) && merged@ == merged_tasks(
                        tasks@,
                        prepared_templates(templates, command@),
                    )
                },
                None => r matches Err(AppError::Json(_)),
            },
            None => r matches Err(AppError::Json(_)),
        },
{
    let templates = task_templates(command)?;
    proof {
        let parsed = json_array_items(json_parse(TASK_TEMPLATES@)->Some_0)->Some_0;
        lemma_prepared_labels(parsed, templates@, command@);
        assert(templates@ == prepared_templates(parsed, command@));
        if exists|i: int| 0 <= i < parsed.len() && task_label(#[trigger] parsed[i]) is None {
            let i = choose|i: int| 0 <= i < parsed.len() && task_label(#[trigger] parsed[i]) is None;
            assert(task_label(templates@[i]) is None);
        } else {
            assert forall|i: int| 0 <= i < templates@.len() implies task_label(
                #[trigger] templates@[i],
            ) is Some by {
                assert(task_label(templates@[i]) == task_label(parsed[i]));
            }
        }
    }
    merge_managed_tasks(tasks, templates)
}

proof fn lemma_unmanaged_append(a: Seq<serde_json::Value>, b: Seq<serde_json::Value>, managed: Seq<Seq<char>>)
    ensures
        unmanaged_tasks(a + b, managed) == unmanaged_tasks(a, managed) + unmanaged_tasks(b, managed),
    decreases b.len(),
{
    if b.len() == 0 {
        assert(a + b =~= a);
        assert(unmanaged_tasks(a, managed) + unmanaged_tasks(b, managed) =~= unmanaged_tasks(a, managed));
    } else {
        lemma_unmanaged_append(a, b.drop_last(), managed);
        assert((a + b).drop_last() =~= a + b.drop_last());
        assert((a + b).last() == b.last());
        let t = b.last();
        if task_label(t) matches Some(l) && managed.contains(l) {
        } else {
            assert(unmanaged_tasks(a, managed) + unmanaged_tasks(b.drop_last(), managed).push(t) =~= (
            unmanaged_tasks(a, managed) + unmanaged_tasks(b.drop_last(), managed)).push(t));
        }
    }
}

proof fn lemma_unmanaged_kept(tasks: Seq<serde_json::Value>, managed: Seq<Seq<char>>)
    ensures
        forall|i: int|
            0 <= i < unmanaged_tasks(tasks, managed).len() ==> !(task_label(
                #[trigger] unmanaged_tasks(tasks, managed)[i],
            ) matches Some(l) && managed.contains(l)),
    decreases tasks.len(),
{
    if tasks.len() > 0 {
        lemma_unmanaged_kept(tasks.drop_last(), managed);
        let rest = unmanaged_tasks(tasks.drop_last(), managed);
        assert forall|i: int|
            0 <= i < unmanaged_tasks(tasks, managed).len() implies !(task_label(
            #[trigger] unmanaged_tasks(tasks, managed)[i],
        ) matches Some(l) && managed.contains(l)) by {
            if i < rest.len() {
                assert(unmanaged_tasks(tasks, managed)[i] == rest[i]);
            }
        }
    }
}

proof fn lemma_unmanaged_of_clean(tasks: Seq<serde_json::Value>, managed: Seq<Seq<char>>)
    requires
        forall|i: int| 0 <= i < tasks.len() ==> !(task_label(#[trigger] tasks[i]) matches Some(l)
            && managed.contains(l)),
    ensures
        unmanaged_tasks(tasks, managed) == tasks,
    decreases tasks.len(),
{
    if tasks.len() > 0 {
        lemma_unmanaged_of_clean(tasks.drop_last(), managed);
        assert(tasks[tasks.len() - 1] == tasks.last());
        assert(tasks.drop_last().push(tasks.last()) =~= tasks);
    } else {
        assert(tasks =~= Seq::<serde_json::Value>::empty());
    }
}

proof fn lemma_unmanaged_of_managed(tasks: Seq<serde_json::Value>, managed: Seq<Seq<char>>)
    requires
        forall|i: int| 0 <= i < tasks.len() ==> (task_label(#[trigger] tasks[i]) matches Some(l)
            && managed.contains(l)),
    ensures
        unmanaged_tasks(tasks, managed) == Seq::<serde_json::Value>::empty(),
    decreases tasks.len(),
{
    if tasks.len() > 0 {
        lemma_unmanaged_of_managed(tasks.drop_last(), managed);
        assert(tasks[tasks.len() - 1] == tasks.last());
    }
}

/// Installing twice is installing once: merging the same templates into an
/// already merged task list gives that list back, so no managed task is
/// ever duplicated; and no task kept from before carries a label that a
/// template manages.
pub proof fn lemma_merge_idempotent(tasks: Seq<serde_json::Value>, templates: Seq<serde_json::Value>)
    requires
        forall|i: int| 0 <= i < templates.len() ==> task_label(#[trigger] templates[i]) is Some,
    ensures
        merged_tasks(merged_tasks(tasks, templates), templates) == merged_tasks(tasks, templates),
        forall|i: int|
            0 <= i < unmanaged_tasks(tasks, task_labels(templates)).len() ==> !(task_label(
                #[trigger] unmanaged_tasks(tasks, task_labels(templates))[i],
            ) matches Some(l) && task_labels(templates).contains(l)),
{
    let managed = task_labels(templates);
    assert forall|i: int| 0 <= i < templates.len() implies (task_label(#[trigger] templates[i]) matches Some(
        l,
    ) && managed.contains(l)) by {
        assert(managed[i] == task_label(templates[i])->Some_0);
    }
    let kept = unmanaged_tasks(tasks, managed);
    lemma_unmanaged_append(kept, templates, managed);
    lemma_unmanaged_kept(tasks, managed);
    lemma_unmanaged_of_clean(kept, managed);
    lemma_unmanaged_of_managed(templates, managed);
    assert(kept + Seq::<serde_json::Value>::empty() =~= kept);
}

} // verus!
