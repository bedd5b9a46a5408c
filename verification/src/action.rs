//! Decisions taken around file operations: the check that a file is as it was when scanned,
//! the per-file requests of a group request, and the result reported for each file.

use vstd::prelude::*;
use crate::models::{ActionItem, ActionRequest, ActionResult, BatchActionRequest, FileEntry};
use crate::text::{append_chars, chars_of, decimal_string, decimal_text, listed, string_from_chars};
use crate::tools::{is_ignorable, IGNORABLE_FILES};

verus! {

/// Why a file is no longer the one that was scanned, or `None` when it still is: it must
/// still be a regular file with the scanned size and modification time.
pub open spec fn change_message(entry: FileEntry, is_file: bool, size: u64, modified: u64) -> Option<Seq<char>> {
    if !is_file {
        Some("不再是普通文件"@)
    } else if size != entry.size {
        Some(
            "大小已变化（扫描时 "@ + decimal_text(entry.size as nat) + "，现在 "@ + decimal_text(size as nat)
                + "），已跳过"@,
        )
    } else if modified != entry.modified {
        Some("修改时间已变化，已跳过"@)
    } else {
        None
    }
}

/// Checks, from what the file system now reports of it, that a file is unchanged since the
/// scan.
pub fn check_unchanged(entry: &FileEntry, is_file: bool, size: u64, modified: u64) -> (r: Result<(), String>)
    ensures
        match r {
            Ok(()) => change_message(*entry, is_file, size, modified) is None,
            Err(m) => change_message(*entry, is_file, size, modified) == Some(m@),
        },
{
    if !is_file {
        return Err("不再是普通文件".to_owned());
    }
    if size != entry.size {
        let mut cs = chars_of("大小已变化（扫描时 ");
        let a = decimal_string(entry.size as u128);
        append_chars(&mut cs, a.as_slice());
        let mid = chars_of("，现在 ");
        append_chars(&mut cs, mid.as_slice());
        let b = decimal_string(size as u128);
        append_chars(&mut cs, b.as_slice());
        let tail = chars_of("），已跳过");
        append_chars(&mut cs, tail.as_slice());
        return Err(string_from_chars(cs.as_slice()));
    }
    if modified != entry.modified {
        return Err("修改时间已变化，已跳过".to_owned());
    }
    Ok(())
}

/// The per-file requests of a group request: every file with the group's reference file.
pub fn batch_from_request(req: &ActionRequest) -> (b: BatchActionRequest)
    ensures
        b.kind == req.kind,
        b.dest_dir == req.dest_dir,
        b.items@.len() == req.items@.len(),
        forall|i: int|
            0 <= i < b.items@.len() ==> (#[trigger] b.items@[i]).file == req.items@[i] && b.items@[i].reference@
                == req.reference@,
{
    let mut items: Vec<ActionItem> = Vec::with_capacity(req.items.len());
    let mut i: usize = 0;
    while i < req.items.len()
        invariant
            i <= req.items@.len(),
            items@.len() == i,
            forall|k: int|
                0 <= k < i ==> (#[trigger] items@[k]).file == req.items@[k] && items@[k].reference@ == req.reference@,
        decreases req.items@.len() - i,
    {
        items.push(ActionItem { file: req.items[i].clone(), reference: req.reference.clone() });
        i = i + 1;
    }
    let dest_dir = match &req.dest_dir {
        Some(d) => Some(d.clone()),
        None => None,
    };
    BatchActionRequest { kind: req.kind, items, dest_dir }
}

/// The result reported for one file: `成功` on success, else the error's message.
pub fn result_of(path: &str, outcome: Result<(), String>) -> (r: ActionResult)
    ensures
        r.path@ == path@,
        r.ok == outcome is Ok,
        match outcome {
            Ok(()) => r.message@ == "成功"@,
            Err(m) => r.message@ == m@,
        },
{
    match outcome {
        Ok(()) => ActionResult { path: path.to_owned(), ok: true, message: "成功".to_owned() },
        Err(m) => ActionResult { path: path.to_owned(), ok: false, message: m },
    }
}

/// Some entry of a folder is not one of the files the system creates by itself.
pub open spec fn has_real_entry(names: Seq<String>) -> bool {
    exists|i: int| 0 <= i < names.len() && !listed(IGNORABLE_FILES@, (#[trigger] names[i])@)
}

/// Whether a folder, of which these are the entry names, holds anything but system files.
pub fn folder_has_real_entry(names: &Vec<String>) -> (r: bool)
    ensures
        r == has_real_entry(names@),
{
    let mut i: usize = 0;
    while i < names.len()
        invariant
            i <= names@.len(),
            forall|k: int| 0 <= k < i ==> listed(IGNORABLE_FILES@, (#[trigger] names@[k])@),
        decreases names@.len() - i,
    {
        if !is_ignorable(names[i].as_str()) {
            return true;
        }
        i = i + 1;
    }
    false
}

} // verus!
