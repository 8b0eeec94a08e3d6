//! Project ids and the git root of a directory.
use vstd::prelude::*;
use crate::text::texts;

verus! {

pub const FNV_OFFSET: u64 = 0xcbf29ce484222325;

pub const FNV_PRIME: u64 = 0x100000001b3;

/// FNV-1a (64 bits) of `bytes`.
pub open spec fn fnv1a(bytes: Seq<u8>) -> u64
    decreases bytes.len(),
{
    if bytes.len() == 0 {
        FNV_OFFSET
    } else {
        (((fnv1a(bytes.drop_last()) ^ (bytes.last() as u64)) as nat * FNV_PRIME as nat)
            % 0x1_0000_0000_0000_0000) as u64
    }
}

/// The lowercase hexadecimal digit of `d` (0 to 15).
pub open spec fn hex_digit(d: u64) -> char {
    if d < 10 {
        (d + 48) as char
    } else {
        (d + 87) as char
    }
}

/// `h` on 16 lowercase hexadecimal digits, most significant first.
pub open spec fn hex16(h: u64) -> Seq<char> {
    Seq::new(16, |i: int| hex_digit((h >> ((60 - 4 * i) as u64)) & 15))
}

/// The id of the project at `path`: `prj_` and the FNV-1a hash of the path's
/// UTF-8 bytes on 16 hexadecimal digits.
pub open spec fn project_id_of(path: Seq<char>) -> Seq<char> {
    "prj_"@ + hex16(fnv1a(vstd::utf8::encode_utf8(path)))
}

/// The id of the project at `path`.
pub fn hash_path(path: &str) -> (res: String)
    ensures
        res@ == project_id_of(path@),
{
    let bytes = path.as_bytes();
    let mut h: u64 = FNV_OFFSET;
    let mut k: usize = 0;
    assert(bytes@.take(0) =~= Seq::<u8>::empty());
    while k < bytes.len()
        invariant
            k <= bytes@.len(),
            h == fnv1a(bytes@.take(k as int)),
        decreases bytes.len() - k,
    {
        assert(bytes@.take(k + 1).drop_last() =~= bytes@.take(k as int));
        assert(bytes@.take(k + 1).last() == bytes@[k as int]);
        h ^= bytes[k] as u64;
        h = h.wrapping_mul(FNV_PRIME);
        k = k + 1;
    }
    assert(bytes@.take(bytes@.len() as int) =~= bytes@);
    let mut out = String::from_str("prj_");
    let ghost start = out@;
    let mut i: u64 = 0;
    while i < 16
        invariant
            i <= 16,
            h == fnv1a(bytes@),
            out@ == start + hex16(h).take(i as int),
        decreases 16 - i,
    {
        let shift: u64 = 60 - 4 * i;
        let d = (h >> shift) & 15;
        assert(d < 16) by (bit_vector)
            requires
                d == (h >> shift) & 15,
        ;
        let c = if d < 10 {
            ((d as u8) + 48u8) as char
        } else {
            ((d as u8) + 87u8) as char
        };
        assert(c == hex16(h)[i as int]);
        out.push(c);
        assert(hex16(h).take(i + 1) =~= hex16(h).take(i as int).push(c));
        i = i + 1;
    }
    assert(hex16(h).take(16) =~= hex16(h));
    proof {
        reveal_strlit("prj_");
    }
    out
}

/// One directory on the way from a directory up to the filesystem root:
/// its path, its final component (when it has one that is valid UTF-8) and
/// whether it holds `.git`.
#[derive(Debug, Clone, PartialEq, Eq)]
pub struct PathStep {
    pub path: String,
    pub name: Option<String>,
    pub has_git: bool,
}

/// The first step that holds `.git`, or the first step (the directory
/// itself) when none does.
pub open spec fn git_root_index(steps: Seq<PathStep>) -> int {
    if exists|i: int| 0 <= i < steps.len() && #[trigger] steps[i].has_git {
        choose|i: int|
            0 <= i < steps.len() && steps[i].has_git && forall|j: int|
                0 <= j < i ==> !(#[trigger] steps[j].has_git)
    } else {
        0
    }
}

fn find_git_root(steps: &Vec<PathStep>) -> (res: usize)
    requires
        steps.len() > 0,
    ensures
        res == git_root_index(steps@),
        res < steps.len(),
{
    let mut k: usize = 0;
    while k < steps.len()
        invariant
            k <= steps.len(),
            forall|j: int| 0 <= j < k ==> !(#[trigger] steps@[j].has_git),
        decreases steps.len() - k,
    {
        if steps[k].has_git {
            let ghost c = choose|i: int|
                0 <= i < steps@.len() && steps@[i].has_git && forall|j: int|
                    0 <= j < i ==> !(#[trigger] steps@[j].has_git);
            assert(0 <= c < steps@.len() && steps@[c].has_git && forall|j: int|
                0 <= j < c ==> !(#[trigger] steps@[j].has_git));
            assert(c == k) by {
                if c < k {
                    assert(!steps@[c].has_git);
                }
                if c > k {
                    assert(!steps@[k as int].has_git);
                }
            }
            return k;
        }
        k = k + 1;
    }
    0
}

/// The git root of a directory: the nearest of `steps` (the directory, then
/// each parent up to the filesystem root) that holds `.git`, or the
/// directory itself when none does.
pub fn resolve_git_root(steps: &Vec<PathStep>) -> (res: String)
    requires
        steps.len() > 0,
    ensures
        res@ == steps@[git_root_index(steps@)].path@,
{
    let k = find_git_root(steps);
    steps[k].path.clone()
}

/// (project name, project path) of a session directory: its git root, named
/// by the root's final component, or `unknown` when it has none.
pub fn git_root_for(steps: &Vec<PathStep>) -> (res: (String, String))
    requires
        steps.len() > 0,
    ensures
        res.0@ == match steps@[git_root_index(steps@)].name {
            Some(n) => n@,
            None => "unknown"@,
        },
        res.1@ == steps@[git_root_index(steps@)].path@,
{
    let k = find_git_root(steps);
    let name = match &steps[k].name {
        Some(n) => n.clone(),
        None => String::from_str("unknown"),
    };
    (name, steps[k].path.clone())
}

} // verus!
