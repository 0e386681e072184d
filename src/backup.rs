use vstd::prelude::*;
use crate::error::TodoError;
use crate::text::{chars_of, ends_with_chars, starts_with_chars, views};

verus! {

/// What every snapshot file name begins with.
pub open spec fn backup_prefix() -> Seq<char> {
    "todos_backup_"@
}

/// What every snapshot file name ends with.
pub open spec fn backup_suffix() -> Seq<char> {
    ".json"@
}

/// The name of the snapshot file for `timestamp`.
pub open spec fn backup_name(timestamp: Seq<char>) -> Seq<char> {
    backup_prefix() + timestamp + backup_suffix()
}

/// `name` has the snapshot prefix.
pub open spec fn has_backup_prefix(name: Seq<char>) -> bool {
    backup_prefix().len() <= name.len() && name.subrange(0, backup_prefix().len() as int)
        == backup_prefix()
}

/// `name` is a snapshot file name: the prefix, a timestamp, the suffix.
pub open spec fn is_backup_name(name: Seq<char>) -> bool {
    &&& has_backup_prefix(name)
    &&& backup_prefix().len() + backup_suffix().len() <= name.len()
    &&& name.subrange(name.len() - backup_suffix().len(), name.len() as int) == backup_suffix()
}

/// The timestamp inside a snapshot file name.
pub open spec fn backup_timestamp(name: Seq<char>) -> Seq<char> {
    name.subrange(backup_prefix().len() as int, name.len() - backup_suffix().len())
}

/// The timestamps of the snapshot file names among `names`, in order.
pub open spec fn backup_timestamps(names: Seq<Seq<char>>) -> Seq<Seq<char>>
    decreases names.len(),
{
    if names.len() == 0 {
        Seq::empty()
    } else if is_backup_name(names.last()) {
        backup_timestamps(names.drop_last()).push(backup_timestamp(names.last()))
    } else {
        backup_timestamps(names.drop_last())
    }
}

/// The names among `names` that carry the snapshot prefix, in order.
pub open spec fn prefixed_names(names: Seq<Seq<char>>) -> Seq<Seq<char>>
    decreases names.len(),
{
    if names.len() == 0 {
        Seq::empty()
    } else if has_backup_prefix(names.last()) {
        prefixed_names(names.drop_last()).push(names.last())
    } else {
        prefixed_names(names.drop_last())
    }
}

/// `dir` and `name` joined by a slash.
pub open spec fn path_join(dir: Seq<char>, name: Seq<char>) -> Seq<char> {
    dir + "/"@ + name
}

/// The decimal digits of `n`, most significant first.
pub open spec fn decimal(n: nat) -> Seq<char>
    decreases n,
{
    if n < 10 {
        seq![digit(n)]
    } else {
        decimal(n / 10).push(digit(n % 10))
    }
}

pub open spec fn digit(d: nat) -> char {
    if d < 10 {
        ('0' as u32 + d) as char
    } else {
        '?'
    }
}

fn digit_text(d: u64) -> (r: &'static str)
    requires
        d < 10,
    ensures
        r@ == seq![digit(d as nat)],
{
    proof {
        reveal_strlit("0");
        reveal_strlit("1");
        reveal_strlit("2");
        reveal_strlit("3");
        reveal_strlit("4");
        reveal_strlit("5");
        reveal_strlit("6");
        reveal_strlit("7");
        reveal_strlit("8");
        reveal_strlit("9");
    }
    let r = match d {
        0 => "0",
        1 => "1",
        2 => "2",
        3 => "3",
        4 => "4",
        5 => "5",
        6 => "6",
        7 => "7",
        8 => "8",
        _ => "9",
    };
    assert(r@ =~= seq![digit(d as nat)]);
    r
}

/// Appends the decimal digits of `n` to `s`.
fn push_decimal(s: &mut String, n: u64)
    ensures
        final(s)@ == old(s)@ + decimal(n as nat),
    decreases n,
{
    if n >= 10 {
        push_decimal(s, n / 10);
    }
    s.append(digit_text(n % 10));
    proof {
        if n >= 10 {
            assert(old(s)@ + decimal((n / 10) as nat) + seq![digit((n % 10) as nat)] =~= old(s)@
                + decimal(n as nat));
        } else {
            assert(old(s)@ + seq![digit((n % 10) as nat)] =~= old(s)@ + decimal(n as nat));
        }
    }
}

/// `dir` and `name` joined by a slash.
fn join_path(dir: &str, name: &str) -> (r: String)
    ensures
        r@ == path_join(dir@, name@),
{
    let mut r = String::from_str(dir);
    r.append("/");
    r.append(name);
    r
}

/// The name of the snapshot file for `timestamp`: `todos_backup_<timestamp>.json`.
pub fn backup_file_name(timestamp: &str) -> (r: String)
    ensures
        r@ == backup_name(timestamp@),
{
    let mut r = String::from_str("todos_backup_");
    r.append(timestamp);
    r.append(".json");
    r
}

/// The timestamp inside a snapshot file name, or `None` when `input` lacks the prefix
/// `todos_backup_` or the suffix `.json`.
pub fn trim_backup_file_name(input: &str) -> (r: Option<String>)
    ensures
        match r {
            Some(t) => is_backup_name(input@) && t@ == backup_timestamp(input@),
            None => !is_backup_name(input@),
        },
{
    let s = chars_of(input);
    let p = chars_of("todos_backup_");
    let x = chars_of(".json");
    proof {
        reveal_strlit("todos_backup_");
        reveal_strlit(".json");
    }
    if !starts_with_chars(&s, &p) {
        return None;
    }
    let rest = s.len() - p.len();
    if rest < x.len() || !ends_with_chars(&s, &x) {
        return None;
    }
    Some(input.substring_char(p.len(), s.len() - x.len()).to_owned())
}

/// The timestamps of the snapshot files among the file names `names`, in order; names that
/// are not snapshot file names are passed over.
pub fn list_backup_timestamps(names: &Vec<String>) -> (r: Vec<String>)
    ensures
        views(r@) == backup_timestamps(views(names@)),
{
    let mut r: Vec<String> = Vec::new();
    let mut i: usize = 0;
    while i < names.len()
        invariant
            i <= names@.len(),
            views(r@) == backup_timestamps(views(names@.subrange(0, i as int))),
        decreases names@.len() - i,
    {
        let ghost pre = views(names@.subrange(0, i + 1));
        assert(pre.drop_last() =~= views(names@.subrange(0, i as int)));
        assert(pre.last() == names@[i as int]@);
        match trim_backup_file_name(names[i].as_str()) {
            Some(t) => {
                let ghost before = r@;
                r.push(t);
                assert(views(r@) =~= views(before).push(t@));
            },
            None => {},
        }
        i = i + 1;
    }
    assert(names@.subrange(0, names@.len() as int) =~= names@);
    r
}

/// The file names among `names` that deleting every snapshot removes: those that begin with
/// `todos_backup_`, in order.
pub fn backup_files_to_delete(names: &Vec<String>) -> (r: Vec<String>)
    ensures
        views(r@) == prefixed_names(views(names@)),
{
    let p = chars_of("todos_backup_");
    proof {
        reveal_strlit("todos_backup_");
    }
    let mut r: Vec<String> = Vec::new();
    let mut i: usize = 0;
    while i < names.len()
        invariant
            p@ == backup_prefix(),
            i <= names@.len(),
            views(r@) == prefixed_names(views(names@.subrange(0, i as int))),
        decreases names@.len() - i,
    {
        let ghost pre = views(names@.subrange(0, i + 1));
        assert(pre.drop_last() =~= views(names@.subrange(0, i as int)));
        assert(pre.last() == names@[i as int]@);
        let s = chars_of(names[i].as_str());
        if starts_with_chars(&s, &p) {
            let ghost before = r@;
            r.push(names[i].clone());
            assert(views(r@) =~= views(before).push(names@[i as int]@));
        }
        i = i + 1;
    }
    assert(names@.subrange(0, names@.len() as int) =~= names@);
    r
}

/// Whether `names` holds `name`.
fn holds_name(names: &Vec<String>, name: &String) -> (r: bool)
    ensures
        r == views(names@).contains(name@),
{
    let n = chars_of(name.as_str());
    let mut i: usize = 0;
    while i < names.len()
        invariant
            n@ == name@,
            i <= names@.len(),
            forall|k: int| 0 <= k < i ==> #[trigger] views(names@)[k] != name@,
        decreases names@.len() - i,
    {
        let c = chars_of(names[i].as_str());
        if c.len() == n.len() && starts_with_chars(&c, &n) {
            assert(c@ =~= c@.subrange(0, n@.len() as int));
            assert(views(names@)[i as int] == name@);
            return true;
        }
        proof {
            if views(names@)[i as int] == name@ {
                assert(c@.subrange(0, n@.len() as int) =~= c@);
            }
        }
        i = i + 1;
    }
    false
}

/// The path of the todo file inside the application directory `app_dir`.
pub fn get_todo_file_path(app_dir: &str) -> (r: String)
    ensures
        r@ == path_join(app_dir@, "todos.json"@),
{
    join_path(app_dir, "todos.json")
}

/// The path of the configuration file inside the configuration directory `config_dir`.
pub fn get_config_file_path(config_dir: &str) -> (r: String)
    ensures
        r@ == path_join(config_dir@, "config.lua"@),
{
    join_path(config_dir, "config.lua")
}

/// The path of the snapshot for `timestamp` in `backup_dir`, whose files are `existing`;
/// fails with `BackupNotFound` when no such snapshot file exists.
pub fn get_backup_file_path(backup_dir: &str, timestamp: &str, existing: &Vec<String>) -> (r: Result<
    String,
    TodoError,
>)
    ensures
        match r {
            Ok(p) => views(existing@).contains(backup_name(timestamp@)) && p@ == path_join(
                backup_dir@,
                backup_name(timestamp@),
            ),
            Err(e) => !views(existing@).contains(backup_name(timestamp@)) && e
                == TodoError::BackupNotFound,
        },
{
    let name = backup_file_name(timestamp);
    if holds_name(existing, &name) {
        Ok(join_path(backup_dir, name.as_str()))
    } else {
        Err(TodoError::BackupNotFound)
    }
}

/// The path of a new snapshot in `backup_dir`, keyed by `now_secs`, the seconds since the
/// Unix epoch; fails with `SourceMissing` when there is no todo file to copy.
pub fn new_backup_file_path(backup_dir: &str, todo_file_exists: bool, now_secs: u64) -> (r: Result<
    String,
    TodoError,
>)
    ensures
        match r {
            Ok(p) => todo_file_exists && p@ == path_join(
                backup_dir@,
                backup_name(decimal(now_secs as nat)),
            ),
            Err(e) => !todo_file_exists && e == TodoError::SourceMissing,
        },
{
    if !todo_file_exists {
        return Err(TodoError::SourceMissing);
    }
    let mut key = String::new();
    push_decimal(&mut key, now_secs);
    let name = backup_file_name(key.as_str());
    Ok(join_path(backup_dir, name.as_str()))
}

} // verus!
