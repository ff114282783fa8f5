//! What an editor needs of a check: when to run it, which file a link
//! names, and which edits to offer for a diagnostic.

use vstd::prelude::*;
use vstd::string::StringExecFns;

verus! {

/// What the path of a link decodes to: every `%` with two hexadecimal
/// digits behind it read as the byte that the digits give, and the bytes
/// read as UTF-8; `None` if they are no UTF-8.
pub uninterp spec fn percent_decoded(path: Seq<char>) -> Option<Seq<char>>;

/// Calls `percent_decode_str` of the crate `percent-encoding` and
/// `decode_utf8` on what it gives. The result is taken to depend on the
/// text alone. A text without a `%` holds nothing to decode and comes
/// back as it is.
#[verifier::external_body]
fn percent_decode(path: &str) -> (decoded: Option<String>)
    ensures
        decoded is Some <==> percent_decoded(path@) is Some,
        decoded is Some ==> decoded->0@ == percent_decoded(path@)->0,
        !path@.contains('%') ==> decoded is Some && decoded->0@ == path@,
{
    match percent_encoding::percent_decode_str(path).decode_utf8() {
        Ok(text) => Some(text.into_owned()),
        Err(_) => None,
    }
}

/// The part of the path of a link that is decoded: the path itself, or,
/// where paths are written with a drive in front, the path without the
/// slash before the drive.
pub open spec fn rooted(path: Seq<char>, skip_root: bool) -> Seq<char> {
    if skip_root && path.len() > 0 && path[0] == '/' {
        path.subrange(1, path.len() as int)
    } else {
        path
    }
}

/// The part of the path of a link that is decoded.
pub fn path_without_root(path: &str, skip_root: bool) -> (part: &str)
    ensures
        part@ == rooted(path@, skip_root),
{
    let count = path.unicode_len();
    if skip_root && count > 0 && path.get_char(0) == '/' {
        path.substring_char(1, count)
    } else {
        path
    }
}

/// The path of a file in the file system, from the path of its link.
/// With `skip_root` a slash at the start is left out before decoding.
/// Gives `None` if the decoded path is no text.
pub fn uri_path(path: &str, skip_root: bool) -> (file: Option<String>)
    ensures
        file is Some <==> percent_decoded(rooted(path@, skip_root)) is Some,
        file is Some ==> file->0@ == percent_decoded(rooted(path@, skip_root))->0,
        !path@.contains('%') ==> file is Some && file->0@ == rooted(path@, skip_root),
{
    let part = path_without_root(path, skip_root);
    proof {
        if !path@.contains('%') && part@.contains('%') {
            let i = choose|i: int| 0 <= i < part@.len() && part@[i] == '%';
            if part@.len() < path@.len() {
                assert(path@[i + 1] == '%');
            }
            assert(false);
        }
    }
    percent_decode(part)
}

/// An edit that an editor can offer for a diagnostic.
#[derive(Clone, Debug, PartialEq, Eq)]
pub struct QuickFix {
    /// What the editor shows.
    pub title: String,
    /// What the text of the diagnostic is replaced with.
    pub new_text: String,
    /// Whether this is the edit to offer first.
    pub preferred: bool,
}

/// The title of the edit that puts `value` in place.
pub open spec fn fix_title(value: Seq<char>) -> Seq<char> {
    "Replace with \""@ + value + "\""@
}

/// One edit for each replacement, in order; the first is preferred.
pub fn quick_fixes(replacements: &Vec<String>) -> (fixes: Vec<QuickFix>)
    ensures
        fixes@.len() == replacements@.len(),
        forall|i: int|
            0 <= i < fixes@.len() ==> {
                &&& (#[trigger] fixes@[i]).title@ == fix_title(replacements@[i]@)
                &&& fixes@[i].new_text@ == replacements@[i]@
                &&& fixes@[i].preferred == (i == 0)
            },
{
    let mut fixes: Vec<QuickFix> = Vec::new();
    let mut i: usize = 0;
    while i < replacements.len()
        invariant
            0 <= i <= replacements@.len(),
            fixes@.len() == i,
            forall|k: int|
                0 <= k < i ==> {
                    &&& (#[trigger] fixes@[k]).title@ == fix_title(replacements@[k]@)
                    &&& fixes@[k].new_text@ == replacements@[k]@
                    &&& fixes@[k].preferred == (k == 0)
                },
        decreases replacements@.len() - i,
    {
        let mut title = "Replace with \"".to_owned();
        title.append(replacements[i].as_str());
        title.append("\"");
        fixes.push(QuickFix { title, new_text: replacements[i].clone(), preferred: i == 0 });
        i += 1;
    }
    fixes
}

/// A check that is due: when, and for which file.
#[derive(Clone, Debug, PartialEq, Eq)]
pub struct CheckData {
    /// The time from which on the check is to run, in milliseconds.
    pub check_time: u64,
    /// The link of the file in the editor.
    pub url: String,
    /// The path of the file.
    pub path: String,
}

/// Mathematical counterpart of [`CheckData`].
pub ghost struct CheckView {
    pub check_time: u64,
    pub url: Seq<char>,
    pub path: Seq<char>,
}

impl View for CheckData {
    type V = CheckView;

    open spec fn view(&self) -> CheckView {
        CheckView { check_time: self.check_time, url: self.url@, path: self.path@ }
    }
}

/// The view of a check, if there is one.
pub open spec fn check_of(check: Option<CheckData>) -> Option<CheckView> {
    match check {
        Some(data) => Some(data@),
        None => None,
    }
}

/// `now + delay`, or the latest time there is if the sum exceeds it.
pub open spec fn later(now: u64, delay: u64) -> u64 {
    if now + delay <= u64::MAX {
        (now + delay) as u64
    } else {
        u64::MAX
    }
}

/// Decides when a file is checked. At most one check is due at a time: a
/// new one takes the place of the one before, it is not added to it.
#[derive(Debug)]
pub struct Schedule {
    /// How long to wait after a change before the file is checked;
    /// `None` if changes alone lead to no check.
    pub on_change: Option<u64>,
    /// The check that is due, if any.
    pub check: Option<CheckData>,
}

impl Schedule {
    /// A schedule without a check that is due.
    pub fn new(on_change: Option<u64>) -> (schedule: Schedule)
        ensures
            schedule.on_change == on_change,
            schedule.check is None,
    {
        Schedule { on_change, check: None }
    }

    /// A file was opened or saved at the time `now`: it is checked at
    /// once.
    pub fn request(&mut self, now: u64, url: String, path: String)
        ensures
            final(self).on_change == old(self).on_change,
            check_of(final(self).check) == Some(
                CheckView { check_time: now, url: url@, path: path@ },
            ),
    {
        self.check = Some(CheckData { check_time: now, url, path });
    }

    /// A file was changed at the time `now`: it is checked once the delay
    /// has passed without another change. Without a delay nothing
    /// happens.
    pub fn changed(&mut self, now: u64, url: String, path: String)
        ensures
            final(self).on_change == old(self).on_change,
            check_of(final(self).check) == match old(self).on_change {
                Some(delay) => Some(
                    CheckView { check_time: later(now, delay), url: url@, path: path@ },
                ),
                None => check_of(old(self).check),
            },
    {
        match self.on_change {
            Some(delay) => {
                let check_time = match now.checked_add(delay) {
                    Some(time) => time,
                    None => u64::MAX,
                };
                self.check = Some(CheckData { check_time, url, path });
            },
            None => {},
        }
    }

    /// Until when to wait for what the editor says next; `None` if no
    /// check is due and the wait has no end.
    pub fn deadline(&self) -> (time: Option<u64>)
        ensures
            time == match self.check {
                Some(data) => Some(data.check_time),
                None => None,
            },
    {
        match &self.check {
            Some(data) => Some(data.check_time),
            None => None,
        }
    }

    /// The wait has ended at the time `now` and the editor said nothing:
    /// gives the check to run, if one is due by now, and no check is due
    /// any more.
    pub fn take_due(&mut self, now: u64) -> (due: Option<CheckData>)
        ensures
            final(self).on_change == old(self).on_change,
            match old(self).check {
                Some(data) => if data.check_time <= now {
                    due == Some(data) && final(self).check is None
                } else {
                    due is None && final(self).check == old(self).check
                },
                None => due is None && final(self).check is None,
            },
    {
        let is_due = match &self.check {
            Some(data) => data.check_time <= now,
            None => false,
        };
        if is_due {
            self.check.take()
        } else {
            None
        }
    }
}

} // verus!
