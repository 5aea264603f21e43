use vstd::prelude::*;

verus! {

/// What a remote entry is, as told by the detailed listing.
#[derive(PartialEq, Eq, Structural, Clone, Copy, Debug)]
pub enum ItemType {
    File,
    Dir,
}

impl ItemType {
    /// The short label shown for the kind in progress output.
    pub fn label(&self) -> (r: &'static str)
        ensures
            r@ == (match self {
                ItemType::File => seq!['F', 'I', 'L', 'E'],
                ItemType::Dir => seq!['D', 'I', 'R'],
            }),
    {
        match self {
            ItemType::File => {
                proof {
                    reveal_strlit("FILE");
                }
                "FILE"
            },
            ItemType::Dir => {
                proof {
                    reveal_strlit("DIR");
                }
                "DIR"
            },
        }
    }
}

/// One entry of a remote directory: its plain name and its kind.
pub struct RemoteEntry {
    pub name: String,
    pub kind: ItemType,
}

/// Why a listing could not be used.
#[derive(PartialEq, Eq, Structural, Clone, Copy, Debug)]
pub enum ListingError {
    /// The plain and the detailed listing of one directory differ in length.
    CountMismatch,
}

/// The token that marks a directory in a line of the detailed listing.
pub open spec fn dir_marker() -> Seq<char> {
    seq!['<', 'D', 'I', 'R', '>']
}

/// The suffix of files that earlier backups left behind.
pub open spec fn backup_suffix() -> Seq<char> {
    seq!['.', 'b', 'a', 'c', 'k', 'u', 'p']
}

/// `pat` stands in `s` from position `i` on.
pub open spec fn occurs_at(s: Seq<char>, pat: Seq<char>, i: int) -> bool {
    0 <= i && i + pat.len() <= s.len() && s.subrange(i, i + pat.len()) == pat
}

pub open spec fn contains_text(s: Seq<char>, pat: Seq<char>) -> bool {
    exists|i: int| occurs_at(s, pat, i)
}

pub open spec fn ends_with_text(s: Seq<char>, suffix: Seq<char>) -> bool {
    occurs_at(s, suffix, s.len() - suffix.len())
}

/// The kind that a line of the detailed listing announces.
pub open spec fn kind_of_line(line: Seq<char>) -> ItemType {
    if contains_text(line, dir_marker()) {
        ItemType::Dir
    } else {
        ItemType::File
    }
}

/// A file that an earlier backup produced, and that is never mapped again.
pub open spec fn is_backup_name(name: Seq<char>) -> bool {
    ends_with_text(name, backup_suffix())
}

/// Whether `pat` stands in `s` at position `i`; the lengths are passed in.
fn matches_at(s: &str, s_len: usize, pat: &str, p_len: usize, i: usize) -> (r: bool)
    requires
        s_len == s@.len(),
        p_len == pat@.len(),
        i + p_len <= s_len,
    ensures
        r == occurs_at(s@, pat@, i as int),
{
    let mut j: usize = 0;
    while j < p_len
        invariant
            s_len == s@.len(),
            p_len == pat@.len(),
            i + p_len <= s_len,
            j <= p_len,
            forall|k: int| 0 <= k < j ==> s@[i + k] == pat@[k],
        decreases p_len - j,
    {
        if s.get_char(i + j) != pat.get_char(j) {
            proof {
                assert(s@.subrange(i as int, i + p_len)[j as int] != pat@[j as int]);
            }
            return false;
        }
        j = j + 1;
    }
    proof {
        assert(s@.subrange(i as int, i + p_len) =~= pat@);
    }
    true
}

/// Whether `pat` stands anywhere in `s`.
pub fn contains(s: &str, pat: &str) -> (r: bool)
    ensures
        r == contains_text(s@, pat@),
{
    let s_len = s.unicode_len();
    let p_len = pat.unicode_len();
    if p_len > s_len {
        proof {
            assert forall|i: int| !occurs_at(s@, pat@, i) by {}
        }
        return false;
    }
    if p_len == 0 {
        proof {
            assert(s@.subrange(0, 0) =~= pat@);
            assert(occurs_at(s@, pat@, 0));
        }
        return true;
    }
    let mut i: usize = 0;
    while i <= s_len - p_len
        invariant
            s_len == s@.len(),
            p_len == pat@.len(),
            1 <= p_len <= s_len,
            i <= s_len - p_len + 1,
            forall|k: int| 0 <= k < i ==> !occurs_at(s@, pat@, k),
        decreases s_len - p_len + 1 - i,
    {
        if matches_at(s, s_len, pat, p_len, i) {
            return true;
        }
        i = i + 1;
    }
    proof {
        assert forall|k: int| !occurs_at(s@, pat@, k) by {
            if 0 <= k < i {
            }
        }
    }
    false
}

/// Whether `s` ends with `suffix`.
pub fn ends_with(s: &str, suffix: &str) -> (r: bool)
    ensures
        r == ends_with_text(s@, suffix@),
{
    let s_len = s.unicode_len();
    let p_len = suffix.unicode_len();
    if p_len > s_len {
        return false;
    }
    matches_at(s, s_len, suffix, p_len, s_len - p_len)
}

/// The kind announced by one line of the detailed listing.
pub fn kind_of(line: &str) -> (r: ItemType)
    ensures
        r == kind_of_line(line@),
{
    proof {
        reveal_strlit("<DIR>");
        assert("<DIR>"@ =~= dir_marker());
    }
    if contains(line, "<DIR>") {
        ItemType::Dir
    } else {
        ItemType::File
    }
}

/// Whether a file name carries the suffix of a backup artifact.
pub fn is_backup_artifact(name: &str) -> (r: bool)
    ensures
        r == is_backup_name(name@),
{
    proof {
        reveal_strlit(".backup");
        assert(".backup"@ =~= backup_suffix());
    }
    ends_with(name, ".backup")
}

/// Pairs the plain names of a directory with the kinds that its detailed
/// listing gives, line by line. The two listings must be equally long.
pub fn classify(names: &Vec<String>, detailed: &Vec<String>) -> (r: Result<
    Vec<RemoteEntry>,
    ListingError,
>)
    ensures
        r is Err <==> names@.len() != detailed@.len(),
        r is Err ==> r == Err::<Vec<RemoteEntry>, ListingError>(ListingError::CountMismatch),
        r matches Ok(v) ==> v@.len() == names@.len() && forall|i: int|
            0 <= i < v@.len() ==> (#[trigger] v@[i]).name@ == names@[i]@ && v@[i].kind
                == kind_of_line(detailed@[i]@),
{
    if names.len() != detailed.len() {
        return Err(ListingError::CountMismatch);
    }
    let mut out: Vec<RemoteEntry> = Vec::new();
    let mut i: usize = 0;
    while i < names.len()
        invariant
            names@.len() == detailed@.len(),
            i <= names@.len(),
            out@.len() == i,
            forall|k: int|
                0 <= k < i ==> (#[trigger] out@[k]).name@ == names@[k]@ && out@[k].kind
                    == kind_of_line(detailed@[k]@),
        decreases names@.len() - i,
    {
        let kind = kind_of(detailed[i].as_str());
        out.push(RemoteEntry { name: names[i].clone(), kind });
        i = i + 1;
    }
    Ok(out)
}

} // verus!
