use vstd::prelude::*;

use crate::text::chars_of;
use crate::text::all_digits;
use crate::text::decimal_string;
use crate::text::lemma_decimal_string_digits;
use crate::text::lemma_parse_decimal_string;
use crate::text::parse_decimal;
use crate::text::parse_decimal_in;
use crate::text::push_decimal;

verus! {

broadcast use vstd::seq_lib::group_to_multiset_ensures;

/// The CPU id that a directory entry of `/sys/devices/system/cpu` names:
/// `cpu` followed by a number that fits in a `usize`.
pub open spec fn cpu_id_of(name: Seq<char>) -> Option<nat> {
    if name.len() >= 3 && name.take(3) == seq!['c', 'p', 'u'] {
        parse_decimal(name.skip(3), usize::MAX as nat)
    } else {
        None
    }
}

/// The CPU ids that the entry names `names` give, in their order.
pub open spec fn cpu_ids_of(names: Seq<Seq<char>>) -> Seq<usize>
    decreases names.len(),
{
    if names.len() == 0 {
        Seq::empty()
    } else {
        match cpu_id_of(names.last()) {
            Some(id) => cpu_ids_of(names.drop_last()).push(id as usize),
            None => cpu_ids_of(names.drop_last()),
        }
    }
}

/// `s` is in ascending order.
pub open spec fn sorted(s: Seq<usize>) -> bool {
    forall|a: int, b: int| 0 <= a < b < s.len() ==> s[a] <= s[b]
}

/// The views of a list of strings.
pub open spec fn name_views(v: Seq<String>) -> Seq<Seq<char>> {
    v.map_values(|s: String| s@)
}

/// Every CPU's directory entry `cpu<n>` names CPU `n`, for every `n` a
/// `usize` can hold.
pub proof fn lemma_cpu_name(n: usize)
    ensures
        cpu_id_of(seq!['c', 'p', 'u'] + decimal_string(n as nat)) == Some(n as nat),
{
    let name = seq!['c', 'p', 'u'] + decimal_string(n as nat);
    assert(name.take(3) =~= seq!['c', 'p', 'u']);
    assert(name.skip(3) =~= decimal_string(n as nat));
    lemma_parse_decimal_string(n as nat, usize::MAX as nat);
}

/// The CPU id that `name` gives, if it gives one.
pub fn cpu_id(name: &str) -> (r: Option<usize>)
    ensures
        r matches Some(id) ==> cpu_id_of(name@) == Some(id as nat),
        r is None ==> cpu_id_of(name@) is None,
        forall|n: usize| name@ == seq!['c', 'p', 'u'] + decimal_string(n as nat) ==> r == Some(n),
{
    proof {
        assert forall|n: usize| name@ == seq!['c', 'p', 'u'] + decimal_string(n as nat) implies cpu_id_of(
            name@,
        ) == Some(n as nat) by {
            lemma_cpu_name(n);
        }
    }
    let cs = chars_of(name);
    if cs.len() < 3 || cs[0] != 'c' || cs[1] != 'p' || cs[2] != 'u' {
        proof {
            if cs@.len() >= 3 && cs@.take(3) == seq!['c', 'p', 'u'] {
                assert(cs@.take(3)[0] == 'c' && cs@.take(3)[1] == 'p' && cs@.take(3)[2] == 'u');
            }
        }
        return None;
    }
    assert(cs@.take(3) =~= seq!['c', 'p', 'u']);
    assert(cs@.subrange(3, cs@.len() as int) =~= cs@.skip(3));
    match parse_decimal_in(&cs, 3, cs.len(), usize::MAX as u64) {
        Some(v) => Some(v as usize),
        None => None,
    }
}

/// `v` sorted in ascending order.
pub fn sort_ids(v: &Vec<usize>) -> (out: Vec<usize>)
    ensures
        sorted(out@),
        out@.to_multiset() == v@.to_multiset(),
{
    let mut out: Vec<usize> = Vec::new();
    let mut i: usize = 0;
    while i < v.len()
        invariant
            i <= v.len(),
            sorted(out@),
            out@.to_multiset() == v@.take(i as int).to_multiset(),
        decreases v.len() - i,
    {
        let x = v[i];
        let mut j: usize = 0;
        while j < out.len() && out[j] <= x
            invariant
                j <= out.len(),
                forall|k: int| 0 <= k < j ==> out@[k] <= x,
            decreases out.len() - j,
        {
            j = j + 1;
        }
        let ghost prev = out@;
        out.insert(j, x);
        assert(out@ == prev.insert(j as int, x));
        assert forall|a: int, b: int| 0 <= a < b < out@.len() implies out@[a] <= out@[b] by {
            if b < j {
            } else if b == j {
                assert(prev[a] <= x);
            } else if a < j {
                assert(prev[a] <= prev[b - 1]);
            } else if a == j {
                assert(j < prev.len());
                assert(x < prev[j as int]);
                assert(prev[j as int] <= prev[b - 1]);
            } else {
                assert(prev[a - 1] <= prev[b - 1]);
            }
        }
        assert(v@.take(i + 1) =~= v@.take(i as int).push(x));
        i = i + 1;
    }
    assert(v@.take(v.len() as int) =~= v@);
    out
}

/// The ids of the CPUs named among `names` (entries of
/// `/sys/devices/system/cpu`), in plain numerical order, so that SMT
/// siblings come right beside their physical core.
pub fn cpu_ids(names: &Vec<String>) -> (ids: Vec<usize>)
    ensures
        sorted(ids@),
        ids@.to_multiset() == cpu_ids_of(name_views(names@)).to_multiset(),
{
    let mut found: Vec<usize> = Vec::new();
    let mut i: usize = 0;
    while i < names.len()
        invariant
            i <= names.len(),
            found@ == cpu_ids_of(name_views(names@.take(i as int))),
        decreases names.len() - i,
    {
        assert(name_views(names@.take(i + 1)).drop_last() =~= name_views(names@.take(i as int)));
        assert(name_views(names@.take(i + 1)).last() == names@[i as int]@);
        match cpu_id(names[i].as_str()) {
            Some(id) => {
                found.push(id);
            },
            None => {},
        }
        i = i + 1;
    }
    assert(names@.take(names.len() as int) =~= names@);
    sort_ids(&found)
}

/// The comma-separated decimal list of `ids`.
pub open spec fn comma_list(ids: Seq<usize>) -> Seq<char>
    decreases ids.len(),
{
    if ids.len() == 0 {
        Seq::empty()
    } else if ids.len() == 1 {
        decimal_string(ids[0] as nat)
    } else {
        comma_list(ids.drop_last()) + seq![','] + decimal_string(ids.last() as nat)
    }
}

/// The CPU list for `taskset -c` that pins to the first `n` of `cpus`, such
/// as `0,1,2`.
pub fn cpu_list(cpus: &Vec<usize>, n: usize) -> (s: String)
    requires
        n <= cpus.len(),
    ensures
        s@ == comma_list(cpus@.take(n as int)),
{
    let mut s = String::new();
    let mut i: usize = 0;
    while i < n
        invariant
            i <= n <= cpus.len(),
            s@ == comma_list(cpus@.take(i as int)),
        decreases n - i,
    {
        let ghost pre = cpus@.take(i as int);
        assert(cpus@.take(i + 1).drop_last() =~= pre);
        if i > 0 {
            s.append(",");
            proof {
                reveal_strlit(",");
            }
        }
        push_decimal(&mut s, cpus[i] as u64);
        proof {
            if i == 0 {
                assert(s@ =~= comma_list(cpus@.take(1)));
            } else {
                assert(s@ =~= comma_list(cpus@.take(i + 1)));
            }
        }
        i = i + 1;
    }
    s
}

/// The position of the last `,` in `s`.
pub open spec fn last_comma(s: Seq<char>) -> Option<int>
    decreases s.len(),
{
    if s.len() == 0 {
        None
    } else if s.last() == ',' {
        Some(s.len() - 1)
    } else {
        last_comma(s.drop_last())
    }
}

/// The pieces of `s` between its commas, as `str::split(',')` gives them.
pub open spec fn split_commas(s: Seq<char>) -> Seq<Seq<char>>
    decreases s.len(),
{
    match last_comma(s) {
        Some(i) => if 0 <= i < s.len() {
            split_commas(s.take(i)).push(s.skip(i + 1))
        } else {
            seq![s]
        },
        None => seq![s],
    }
}

/// A string of digits holds no comma.
proof fn lemma_no_comma(b: Seq<char>)
    requires
        all_digits(b),
    ensures
        last_comma(b) is None,
    decreases b.len(),
{
    if b.len() > 0 {
        assert(crate::text::is_digit(b[b.len() - 1]));
        assert(b.drop_last().len() < b.len());
        assert forall|k: int| 0 <= k < b.drop_last().len() implies crate::text::is_digit(
            #[trigger] b.drop_last()[k],
        ) by {
            assert(b.drop_last()[k] == b[k]);
        }
        lemma_no_comma(b.drop_last());
    }
}

/// The last comma of `a , b` is the one between them when `b` holds none.
proof fn lemma_last_comma_join(a: Seq<char>, b: Seq<char>)
    requires
        last_comma(b) is None,
    ensures
        last_comma(a + seq![','] + b) == Some(a.len() as int),
    decreases b.len(),
{
    let s = a + seq![','] + b;
    if b.len() == 0 {
        assert(s.last() == ',');
    } else {
        assert(s.drop_last() =~= a + seq![','] + b.drop_last());
        assert(s.last() == b.last());
        lemma_last_comma_join(a, b.drop_last());
    }
}

/// A CPU list names exactly the CPUs it was made from: split at its commas,
/// its pieces are the decimal ids in order, and each reads back as its id.
pub proof fn lemma_cpu_list_pieces(ids: Seq<usize>)
    requires
        ids.len() > 0,
    ensures
        split_commas(comma_list(ids)) == ids.map_values(|id: usize| decimal_string(id as nat)),
        forall|i: int|
            0 <= i < ids.len() ==> parse_decimal(
                #[trigger] split_commas(comma_list(ids))[i],
                usize::MAX as nat,
            ) == Some(ids[i] as nat),
    decreases ids.len(),
{
    let want = ids.map_values(|id: usize| decimal_string(id as nat));
    lemma_decimal_string_digits(ids.last() as nat);
    lemma_no_comma(decimal_string(ids.last() as nat));
    if ids.len() == 1 {
        lemma_decimal_string_digits(ids[0] as nat);
        lemma_no_comma(decimal_string(ids[0] as nat));
        assert(split_commas(comma_list(ids)) =~= want);
    } else {
        let init = ids.drop_last();
        lemma_cpu_list_pieces(init);
        let a = comma_list(init);
        let b = decimal_string(ids.last() as nat);
        lemma_last_comma_join(a, b);
        let s = a + seq![','] + b;
        assert(comma_list(ids) == s);
        assert(s.take(a.len() as int) =~= a);
        assert(s.skip(a.len() as int + 1) =~= b);
        assert(split_commas(s) == split_commas(a).push(b));
        assert(split_commas(comma_list(ids)) =~= want);
    }
    assert forall|i: int| 0 <= i < ids.len() implies parse_decimal(
        #[trigger] split_commas(comma_list(ids))[i],
        usize::MAX as nat,
    ) == Some(ids[i] as nat) by {
        assert(split_commas(comma_list(ids))[i] == decimal_string(ids[i] as nat));
        lemma_parse_decimal_string(ids[i] as nat, usize::MAX as nat);
    }
}

} // verus!
