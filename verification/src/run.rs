use vstd::prelude::*;

use crate::error::SimError;

verus! {

// ---------------------------------------------------------------------------
// Paths
// ---------------------------------------------------------------------------

/// `base` joined with `rel` as `Path::join` does on Unix: an absolute `rel`
/// replaces `base`; otherwise a `/` goes between them unless `base` is empty
/// or already ends in one.
pub open spec fn path_join(base: Seq<char>, rel: Seq<char>) -> Seq<char> {
    if rel.len() > 0 && rel[0] == '/' {
        rel
    } else if base.len() > 0 && base.last() != '/' {
        base + seq!['/'] + rel
    } else {
        base + rel
    }
}

/// Joining puts exactly one `/` between a non-empty base that does not end
/// in one and a relative path, whatever the base's length; it adds nothing
/// after an empty base or one that ends in `/`; an absolute path replaces
/// the base.
pub proof fn lemma_path_join(base: Seq<char>, rel: Seq<char>)
    ensures
        rel.len() > 0 && rel[0] == '/' ==> path_join(base, rel) == rel,
        !(rel.len() > 0 && rel[0] == '/') && base.len() > 0 && base[base.len() - 1] != '/'
            ==> path_join(base, rel) == base + seq!['/'] + rel,
        !(rel.len() > 0 && rel[0] == '/') && (base.len() == 0 || base[base.len() - 1] == '/')
            ==> path_join(base, rel) == base + rel,
        !(rel.len() > 0 && rel[0] == '/') && base.len() > 0 && base[base.len() - 1] != '/'
            ==> path_join(base, rel).len() == base.len() + 1 + rel.len() && path_join(
            base,
            rel,
        )[base.len() as int] == '/',
{
    if !(rel.len() > 0 && rel[0] == '/') && base.len() > 0 && base[base.len() - 1] != '/' {
        let j = base + seq!['/'] + rel;
        assert(j[base.len() as int] == '/');
    }
}

/// `base` joined with `rel`.
pub fn join_path(base: &str, rel: &str) -> (p: String)
    ensures
        p@ == path_join(base@, rel@),
        rel@.len() > 0 && rel@[0] == '/' ==> p@ == rel@,
        !(rel@.len() > 0 && rel@[0] == '/') && base@.len() > 0 && base@[base@.len() - 1] != '/'
            ==> p@ == base@ + seq!['/'] + rel@,
        !(rel@.len() > 0 && rel@[0] == '/') && (base@.len() == 0 || base@[base@.len() - 1]
            == '/') ==> p@ == base@ + rel@,
{
    proof {
        lemma_path_join(base@, rel@);
    }
    if rel.unicode_len() > 0 && rel.get_char(0) == '/' {
        return rel.to_owned();
    }
    let n = base.unicode_len();
    let mut p = base.to_owned();
    if n > 0 && base.get_char(n - 1) != '/' {
        p.append("/");
        proof {
            reveal_strlit("/");
        }
    }
    p.append(rel);
    p
}

/// The fresnel checkout in the home directory `home`: `home/fresnel`.
pub fn fresnel_dir(home: &str) -> (p: String)
    ensures
        p@ == path_join(home@, "fresnel"@),
{
    join_path(home, "fresnel")
}

/// Where a run leaves its parquet files: `fresnel_dir/data`.
pub fn data_dir(fresnel_dir: &str) -> (p: String)
    ensures
        p@ == path_join(fresnel_dir@, "data"@),
{
    join_path(fresnel_dir, "data")
}

/// Where the prebuilt simulator binary lies in the checkout
/// `fresnel_dir`: `fresnel_dir/target/release/fresnel`.
pub fn binary_path(fresnel_dir: &str) -> (p: String)
    ensures
        p@ == path_join(fresnel_dir@, "target/release/fresnel"@),
{
    join_path(fresnel_dir, "target/release/fresnel")
}

/// The prebuilt simulator binary of the checkout `fresnel_dir`, given
/// whether `binary_path(fresnel_dir)` is a file. Building it is the
/// checkout's own business, so a missing binary is an error, never a
/// reason to build.
pub fn fresnel_binary(fresnel_dir: &str, binary_is_file: bool) -> (r: Result<String, SimError>)
    ensures
        binary_is_file ==> (r matches Ok(p) && p@ == path_join(
            fresnel_dir@,
            "target/release/fresnel"@,
        )),
        !binary_is_file ==> (r matches Err(SimError::BinaryNotFound { path }) && path@
            == path_join(fresnel_dir@, "target/release/fresnel"@)),
{
    let path = binary_path(fresnel_dir);
    if binary_is_file {
        Ok(path)
    } else {
        Err(SimError::BinaryNotFound { path })
    }
}

// ---------------------------------------------------------------------------
// Launching and stopping the simulator
// ---------------------------------------------------------------------------

/// A program to start and the arguments to give it.
#[derive(Debug)]
pub struct LaunchCommand {
    pub program: String,
    pub args: Vec<String>,
}

/// The views of a list of strings.
pub open spec fn string_views(v: Seq<String>) -> Seq<Seq<char>> {
    v.map_values(|s: String| s@)
}

/// The command that starts the simulator `binary` with `extra_args`: run
/// directly, or, given a CPU list, pinned to those CPUs with
/// `taskset -c <cpu_list>`.
pub fn launch_command(binary: &str, extra_args: &Vec<String>, cpu_list: Option<&str>) -> (c:
    LaunchCommand)
    ensures
        cpu_list matches Some(l) ==> c.program@ == "taskset"@ && string_views(c.args@)
            == seq!["-c"@, l@, binary@] + string_views(extra_args@),
        cpu_list is None ==> c.program@ == binary@ && string_views(c.args@) == string_views(
            extra_args@,
        ),
{
    let mut args: Vec<String> = Vec::new();
    let program = match cpu_list {
        Some(l) => {
            args.push("-c".to_owned());
            args.push(l.to_owned());
            args.push(binary.to_owned());
            "taskset".to_owned()
        },
        None => binary.to_owned(),
    };
    let ghost head = string_views(args@);
    let mut i: usize = 0;
    while i < extra_args.len()
        invariant
            i <= extra_args.len(),
            string_views(args@) == head + string_views(extra_args@.take(i as int)),
        decreases extra_args.len() - i,
    {
        let ghost prev = args@;
        args.push(extra_args[i].clone());
        assert(string_views(args@) =~= string_views(prev).push(extra_args@[i as int]@));
        assert(string_views(extra_args@.take(i + 1)) =~= string_views(extra_args@.take(i as int)).push(
            extra_args@[i as int]@,
        ));
        assert(string_views(args@) =~= head + string_views(extra_args@.take(i + 1)));
        i = i + 1;
    }
    assert(extra_args@.take(extra_args.len() as int) =~= extra_args@);
    assert(string_views(args@) =~= head + string_views(extra_args@));
    proof {
        if cpu_list is Some {
            assert(head =~= seq!["-c"@, cpu_list->0@, binary@]);
        } else {
            assert(head =~= Seq::<Seq<char>>::empty());
        }
    }
    LaunchCommand { program, args }
}

/// How long an interrupted simulator gets to write out its parquet files, in
/// nanoseconds.
pub const SHUTDOWN_GRACE_NS: u128 = 10_000_000_000u128;

/// How long to sleep between two looks at whether the simulator has exited,
/// in milliseconds.
pub const SHUTDOWN_POLL_MS: u64 = 20u64;

/// What to do while waiting for an interrupted simulator to exit.
#[derive(Clone, Copy, Debug, PartialEq, Eq, Structural)]
pub enum ShutdownPoll {
    /// It has exited: go on and read its files.
    Exited,
    /// It is past its grace period: give up, its files would be truncated.
    TimedOut,
    /// Sleep `SHUTDOWN_POLL_MS` and look again.
    Wait,
}

/// The decision after one look at the simulator, `waited_ns` nanoseconds
/// after it was interrupted.
pub fn shutdown_poll(exited: bool, waited_ns: u128) -> (p: ShutdownPoll)
    ensures
        exited ==> p == ShutdownPoll::Exited,
        !exited && waited_ns > SHUTDOWN_GRACE_NS ==> p == ShutdownPoll::TimedOut,
        !exited && waited_ns <= SHUTDOWN_GRACE_NS ==> p == ShutdownPoll::Wait,
{
    if exited {
        ShutdownPoll::Exited
    } else if waited_ns > SHUTDOWN_GRACE_NS {
        ShutdownPoll::TimedOut
    } else {
        ShutdownPoll::Wait
    }
}

/// The error a shutdown poll ends in, if it ends in one.
pub fn shutdown_error(p: ShutdownPoll) -> (r: Option<SimError>)
    ensures
        p == ShutdownPoll::TimedOut ==> r == Some(SimError::ShutdownTimedOut),
        p != ShutdownPoll::TimedOut ==> r is None,
{
    match p {
        ShutdownPoll::TimedOut => Some(SimError::ShutdownTimedOut),
        _ => None,
    }
}

// ---------------------------------------------------------------------------
// Files that a run leaves
// ---------------------------------------------------------------------------

/// The views of a list of byte strings.
pub open spec fn byte_views(v: Seq<Vec<u8>>) -> Seq<Seq<u8>> {
    v.map_values(|b: Vec<u8>| b@)
}

/// The position of the last `.` in `name`.
pub open spec fn last_dot(name: Seq<u8>) -> Option<int>
    decreases name.len(),
{
    if name.len() == 0 {
        None
    } else if name.last() == 46u8 {
        Some(name.len() - 1)
    } else {
        last_dot(name.drop_last())
    }
}

/// The extension of the file name `name`, as `Path::extension` takes it:
/// what follows the last `.`, unless that dot starts the name or the name
/// is `..`.
pub open spec fn extension(name: Seq<u8>) -> Option<Seq<u8>> {
    if name =~= seq![46u8, 46u8] {
        None
    } else {
        match last_dot(name) {
            Some(i) => if i > 0 {
                Some(name.skip(i + 1))
            } else {
                None
            },
            None => None,
        }
    }
}

/// The bytes of `parquet`.
pub open spec fn parquet_bytes() -> Seq<u8> {
    seq![112u8, 97u8, 114u8, 113u8, 117u8, 101u8, 116u8]
}

/// `last_dot` searched from position `i` down.
proof fn lemma_last_dot_take(name: Seq<u8>, i: int)
    requires
        0 <= i <= name.len(),
        forall|k: int| i <= k < name.len() ==> name[k] != 46u8,
    ensures
        last_dot(name.take(i)) == last_dot(name),
    decreases name.len() - i,
{
    if i < name.len() {
        assert(name.drop_last() =~= name.take(name.len() - 1));
        lemma_last_dot_take(name.drop_last(), i);
        assert(name.drop_last().take(i) =~= name.take(i));
    } else {
        assert(name.take(i) =~= name);
    }
}

/// Whether the byte strings `a` and `b` are equal.
pub fn bytes_equal(a: &[u8], b: &[u8]) -> (r: bool)
    ensures
        r == (a@ == b@),
{
    if a.len() != b.len() {
        return false;
    }
    let mut i: usize = 0;
    while i < a.len()
        invariant
            a@.len() == b@.len(),
            i <= a.len(),
            forall|k: int| 0 <= k < i ==> a@[k] == b@[k],
        decreases a.len() - i,
    {
        if a[i] != b[i] {
            return false;
        }
        i = i + 1;
    }
    assert(a@ =~= b@);
    true
}

/// Whether the file name `name` has the extension `parquet`.
pub fn has_parquet_extension(name: &[u8]) -> (r: bool)
    ensures
        r == (extension(name@) == Some(parquet_bytes())),
{
    let n = name.len();
    if n == 2 && name[0] == 46u8 && name[1] == 46u8 {
        assert(name@ =~= seq![46u8, 46u8]);
        return false;
    }
    assert(!(name@ =~= seq![46u8, 46u8]));
    let mut i = n;
    while i > 0 && name[i - 1] != 46u8
        invariant
            i <= n == name@.len(),
            forall|k: int| i <= k < n ==> name@[k] != 46u8,
        decreases i,
    {
        i = i - 1;
    }
    proof {
        lemma_last_dot_take(name@, i as int);
        if i > 0 {
            assert(name@.take(i as int).last() == 46u8);
        }
    }
    if i <= 1 {
        return false;
    }
    assert(last_dot(name@) == Some(i - 1));
    assert(extension(name@) == Some(name@.skip(i as int)));
    let ext = vec![112u8, 97u8, 114u8, 113u8, 117u8, 101u8, 116u8];
    assert(ext@ =~= parquet_bytes());
    if n - i != 7 {
        assert(name@.skip(i as int).len() != parquet_bytes().len());
        return false;
    }
    let mut k: usize = 0;
    while k < 7
        invariant
            n - i == 7,
            i <= n == name@.len(),
            ext@ == parquet_bytes(),
            extension(name@) == Some(name@.skip(i as int)),
            k <= 7,
            forall|j: int| 0 <= j < k ==> name@[i + j] == ext@[j],
        decreases 7 - k,
    {
        if name[i + k] != ext[k] {
            assert(name@.skip(i as int)[k as int] != parquet_bytes()[k as int]);
            return false;
        }
        k = k + 1;
    }
    assert(name@.skip(i as int) =~= parquet_bytes());
    true
}

/// The paths in `after` that are not in `before`, in the order of `after`.
pub open spec fn new_paths(before: Seq<Seq<u8>>, after: Seq<Seq<u8>>) -> Seq<Seq<u8>>
    decreases after.len(),
{
    if after.len() == 0 {
        Seq::empty()
    } else if before.contains(after.last()) {
        new_paths(before, after.drop_last())
    } else {
        new_paths(before, after.drop_last()).push(after.last())
    }
}

/// Whether `path` is one of `paths`.
fn contains_path(paths: &Vec<Vec<u8>>, path: &Vec<u8>) -> (r: bool)
    ensures
        r == byte_views(paths@).contains(path@),
{
    let mut i: usize = 0;
    while i < paths.len()
        invariant
            i <= paths.len(),
            forall|k: int| 0 <= k < i ==> paths@[k]@ != path@,
        decreases paths.len() - i,
    {
        if bytes_equal(paths[i].as_slice(), path.as_slice()) {
            assert(byte_views(paths@)[i as int] == path@);
            return true;
        }
        i = i + 1;
    }
    assert forall|k: int| 0 <= k < byte_views(paths@).len() implies byte_views(paths@)[k]
        != path@ by {
        assert(paths@[k]@ != path@);
    }
    false
}

/// The files a run created: the paths listed after it that were not listed
/// before it, in the order of `after`. Files that were there before the run
/// are never touched.
pub fn new_files(before: &Vec<Vec<u8>>, after: &Vec<Vec<u8>>) -> (out: Vec<Vec<u8>>)
    ensures
        byte_views(out@) == new_paths(byte_views(before@), byte_views(after@)),
{
    let ghost b = byte_views(before@);
    let mut out: Vec<Vec<u8>> = Vec::new();
    let mut i: usize = 0;
    while i < after.len()
        invariant
            i <= after.len(),
            b == byte_views(before@),
            byte_views(out@) == new_paths(b, byte_views(after@.take(i as int))),
        decreases after.len() - i,
    {
        let ghost pre = byte_views(after@.take(i as int));
        assert(byte_views(after@.take(i + 1)).drop_last() =~= pre);
        assert(byte_views(after@.take(i + 1)).last() == after@[i as int]@);
        if !contains_path(before, &after[i]) {
            out.push(after[i].clone());
            assert(byte_views(out@) =~= new_paths(b, pre).push(after@[i as int]@));
        }
        i = i + 1;
    }
    assert(after@.take(after.len() as int) =~= after@);
    out
}

/// Nothing that was there before a run is among its new files, and every
/// file listed after it that was not there before is.
pub proof fn lemma_new_paths(before: Seq<Seq<u8>>, after: Seq<Seq<u8>>)
    ensures
        forall|p: Seq<u8>| #[trigger] new_paths(before, after).contains(p) <==> after.contains(p)
            && !before.contains(p),
    decreases after.len(),
{
    if after.len() > 0 {
        let init = after.drop_last();
        let x = after.last();
        lemma_new_paths(before, init);
        let q = new_paths(before, init);
        assert forall|p: Seq<u8>| #[trigger] after.contains(p) <==> init.contains(p) || p == x by {
            if after.contains(p) {
                let k = choose|k: int| 0 <= k < after.len() && after[k] == p;
                if k < after.len() - 1 {
                    assert(init[k] == p);
                }
            }
            if init.contains(p) {
                let k = choose|k: int| 0 <= k < init.len() && init[k] == p;
                assert(after[k] == p);
            }
            if p == x {
                assert(after[after.len() - 1] == p);
            }
        }
        if before.contains(x) {
            assert(new_paths(before, after) == q);
        } else {
            assert(new_paths(before, after) == q.push(x));
            assert forall|p: Seq<u8>| #[trigger] q.push(x).contains(p) <==> q.contains(p) || p
                == x by {
                if q.push(x).contains(p) {
                    let k = choose|k: int| 0 <= k < q.push(x).len() && q.push(x)[k] == p;
                    if k < q.len() {
                        assert(q[k] == p);
                    }
                }
                if q.contains(p) {
                    let k = choose|k: int| 0 <= k < q.len() && q[k] == p;
                    assert(q.push(x)[k] == p);
                }
                if p == x {
                    assert(q.push(x)[q.len() as int] == p);
                }
            }
        }
    }
}

} // verus!
