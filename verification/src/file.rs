//! Segment file naming: a segment with id `n` is stored in a file named
//! `<n>.log`, where `<n>` is the decimal representation of `n` without
//! padding. Discovery parses directory entries back into ids.

use vstd::prelude::*;
use vstd::string::StrSliceExecFns;
use vstd::string::StringExecFns;

use crate::errors::KvsError;

verus! {

/// The decimal digit character for `n` (0 through 9).
pub open spec fn spec_digit(n: int) -> char {
    if n == 0 {
        '0'
    } else if n == 1 {
        '1'
    } else if n == 2 {
        '2'
    } else if n == 3 {
        '3'
    } else if n == 4 {
        '4'
    } else if n == 5 {
        '5'
    } else if n == 6 {
        '6'
    } else if n == 7 {
        '7'
    } else if n == 8 {
        '8'
    } else {
        '9'
    }
}

/// The decimal representation of a non-negative integer, most significant
/// digit first, without padding.
pub open spec fn spec_decimal(n: int) -> Seq<char>
    decreases n,
{
    if n < 10 {
        seq![spec_digit(n)]
    } else {
        spec_decimal(n / 10).push(spec_digit(n % 10))
    }
}

/// The file name of the segment with id `id`.
pub open spec fn spec_log_name(id: u64) -> Seq<char> {
    spec_decimal(id as int) + ".log"@
}

/// Is `c` a decimal digit?
pub open spec fn spec_is_digit(c: char) -> bool {
    ('0' as u32) <= (c as u32) && (c as u32) <= ('9' as u32)
}

/// The numeric value of the digit `c`.
pub open spec fn spec_digit_val(c: char) -> int {
    (c as u32) - ('0' as u32)
}

/// The value of a digit string, most significant digit first.
pub open spec fn spec_digits_val(s: Seq<char>) -> int
    decreases s.len(),
{
    if s.len() == 0 {
        0
    } else {
        spec_digits_val(s.drop_last()) * 10 + spec_digit_val(s.last())
    }
}

/// Does `s` consist of one or more decimal digits?
pub open spec fn spec_all_digits(s: Seq<char>) -> bool {
    s.len() >= 1 && forall|i: int| 0 <= i < s.len() ==> spec_is_digit(#[trigger] s[i])
}

/// The stem of a log-named file: everything before the final `.log`.
pub open spec fn spec_log_stem(s: Seq<char>) -> Seq<char> {
    s.take(s.len() - 4)
}

/// Is `s` a well-formed log file name, and if so, for which id?
/// `None` means the name is not a log name at all and is ignored during
/// discovery; a log name whose stem is not a plain decimal number that fits
/// an id is a discovery error.
pub open spec fn spec_name_id(s: Seq<char>) -> Option<int> {
    if spec_is_log_name(s) && spec_all_digits(spec_log_stem(s)) && spec_digits_val(
        spec_log_stem(s),
    ) <= u64::MAX {
        Some(spec_digits_val(spec_log_stem(s)))
    } else {
        None
    }
}

/// Does `s` end in `.log` with a non-empty stem?
pub open spec fn spec_is_log_name(s: Seq<char>) -> bool {
    s.len() >= 5 && s.skip(s.len() - 4) == ".log"@
}

/// A log-named file whose stem is not a decimal id number.
pub open spec fn spec_name_bad(s: Seq<char>) -> bool {
    spec_is_log_name(s) && spec_name_id(s) is None
}

/// The single-character string for the digit `d`.
fn digit_str(d: u64) -> (r: &'static str)
    requires
        d < 10,
    ensures
        r@ == seq![spec_digit(d as int)],
{
    proof {
        reveal_strlit("0");
        reveal_strlit("1");
        reveal_strlit("2");
        reveal_strlit("3");
        reveal_strlit("4");
        reveal_strlit("5");
        reveal_strlit("6");
        reveal_strlit("7");
        reveal_strlit("8");
        reveal_strlit("9");
    }
    let r = match d {
        0 => "0",
        1 => "1",
        2 => "2",
        3 => "3",
        4 => "4",
        5 => "5",
        6 => "6",
        7 => "7",
        8 => "8",
        _ => "9",
    };
    proof {
        assert(r@ =~= seq![spec_digit(d as int)]);
    }
    r
}

/// The decimal representation of `n`.
fn u64_to_decimal(n: u64) -> (r: String)
    ensures
        r@ == spec_decimal(n as int),
    decreases n,
{
    if n < 10 {
        String::from_str(digit_str(n))
    } else {
        let mut s = u64_to_decimal(n / 10);
        s.append(digit_str(n % 10));
        proof {
            assert(s@ =~= spec_decimal(n as int));
        }
        s
    }
}

/// The file name of the segment with id `id`.
pub fn format_name(id: u64) -> (r: String)
    ensures
        r@ == spec_log_name(id),
{
    let mut s = u64_to_decimal(id);
    s.append(".log");
    s
}

/// Parse one directory entry name. `Ok(None)` means the entry is not a log
/// file and is ignored; `Ok(Some(id))` is a segment; `Err` reports a log
/// name whose stem is not a decimal id.
pub fn parse_name(name: &String) -> (r: Result<Option<u64>, KvsError>)
    ensures
        match r {
            Ok(Some(id)) => spec_name_id(name@) == Some(id as int),
            Ok(None) => !spec_is_log_name(name@),
            Err(e) => e == KvsError::UnexpectedFileName && spec_name_bad(name@),
        },
{
    let s = name.as_str();
    let n = s.unicode_len();
    proof {
        reveal_strlit(".log");
    }
    if n < 5 {
        return Ok(None);
    }
    // check the `.log` suffix character by character
    if !(s.get_char(n - 4) == '.' && s.get_char(n - 3) == 'l' && s.get_char(n - 2) == 'o'
        && s.get_char(n - 1) == 'g') {
        proof {
            assert(".log"@.len() == 4);
            if spec_is_log_name(name@) {
                assert(name@.skip(n - 4)[0] == name@[n - 4]);
                assert(name@.skip(n - 4)[1] == name@[n - 3]);
                assert(name@.skip(n - 4)[2] == name@[n - 2]);
                assert(name@.skip(n - 4)[3] == name@[n - 1]);
                assert(".log"@[0] == '.' && ".log"@[1] == 'l' && ".log"@[2] == 'o' && ".log"@[3]
                    == 'g');
                assert(false);
            }
        }
        return Ok(None);
    }
    proof {
        assert(name@.skip(n - 4) =~= ".log"@);
        assert(spec_is_log_name(name@));
    }
    // parse the stem as a decimal id
    let ghost stem = spec_log_stem(name@);
    let mut v: u64 = 0;
    let mut i: usize = 0;
    let stem_len = n - 4;
    while i < stem_len
        invariant
            stem_len == name@.len() - 4,
            stem == spec_log_stem(name@),
            stem.len() == stem_len,
            i <= stem_len,
            i < stem_len ==> i < name@.len(),
            forall|j: int| 0 <= j < i ==> spec_is_digit(#[trigger] stem[j]),
            v == spec_digits_val(stem.take(i as int)),
            spec_is_log_name(name@),
        decreases stem_len - i,
    {
        let c = name.as_str().get_char(i);
        proof {
            assert(stem[i as int] == name@[i as int]);
        }
        let cu = c as u32;
        if cu < '0' as u32 || cu > '9' as u32 {
            proof {
                assert(!spec_is_digit(stem[i as int]));
                assert(!spec_all_digits(stem));
            }
            return Err(KvsError::UnexpectedFileName);
        }
        let d = (cu - '0' as u32) as u64;
        if v > (u64::MAX - d) / 10 {
            // the stem does not fit an id
            proof {
                assert(v * 10 + d > u64::MAX) by (nonlinear_arith)
                    requires
                        v > (u64::MAX - d) / 10,
                        d < 10,
                        v >= 0,
                ;
                assert(stem.take(i + 1).drop_last() =~= stem.take(i as int));
                assert(stem.take(i + 1).last() == stem[i as int]);
                lemma_digits_val_overflow(stem, i as int);
            }
            return Err(KvsError::UnexpectedFileName);
        }
        v = v * 10 + d;
        proof {
            assert(stem.take(i + 1).drop_last() =~= stem.take(i as int));
            assert(stem.take(i + 1).last() == stem[i as int]);
        }
        i = i + 1;
    }
    proof {
        assert(stem.take(stem_len as int) =~= stem);
    }
    Ok(Some(v))
}

/// If a digit prefix already overflows what fits an id, then — provided the
/// whole stem is digits — the whole stem's value overflows too.
proof fn lemma_digits_val_overflow(stem: Seq<char>, i: int)
    requires
        0 <= i < stem.len(),
        spec_digits_val(stem.take(i)) >= 0,
        spec_digits_val(stem.take(i + 1)) > u64::MAX,
    ensures
        spec_all_digits(stem) ==> spec_digits_val(stem) > u64::MAX,
{
    if spec_all_digits(stem) {
        lemma_digits_val_grows(stem, i + 1, stem.len() as int);
        assert(stem.take(stem.len() as int) =~= stem);
    }
}

/// For an all-digit stem, the value of a longer prefix is at least the value
/// of a shorter non-negative one.
proof fn lemma_digits_val_grows(stem: Seq<char>, a: int, b: int)
    requires
        spec_all_digits(stem),
        0 < a <= b <= stem.len(),
        spec_digits_val(stem.take(a)) >= 0,
    ensures
        spec_digits_val(stem.take(b)) >= spec_digits_val(stem.take(a)),
    decreases b - a,
{
    if a < b {
        lemma_digits_val_grows(stem, a, b - 1);
        assert(stem.take(b).drop_last() =~= stem.take(b - 1));
        let prev = spec_digits_val(stem.take(b - 1));
        assert(spec_digits_val(stem.take(b)) == prev * 10 + spec_digit_val(stem.take(b).last()));
        assert(stem.take(b).last() == stem[b - 1]);
        assert(spec_is_digit(stem[b - 1]));
        assert(spec_digit_val(stem[b - 1]) >= 0);
        if prev >= 0 {
            assert(prev * 10 >= prev) by (nonlinear_arith)
                requires
                    prev >= 0,
            ;
        }
    }
}

/// Insert `id` into an ascending list of distinct ids, if not present.
fn insert_id(ids: &mut Vec<u64>, id: u64)
    requires
        forall|a: int, b: int| 0 <= a < b < old(ids)@.len() ==> old(ids)@[a] < old(ids)@[b],
    ensures
        forall|a: int, b: int| 0 <= a < b < final(ids)@.len() ==> final(ids)@[a] < final(ids)@[b],
        forall|x: u64| #[trigger] final(ids)@.contains(x) <==> (old(ids)@.contains(x) || x == id),
{
    let ghost old_seq = ids@;
    let n = ids.len();
    let mut i: usize = 0;
    while i < n && ids[i] < id
        invariant
            n == ids@.len(),
            i <= n,
            ids@ == old_seq,
            forall|a: int, b: int| 0 <= a < b < ids@.len() ==> ids@[a] < ids@[b],
            forall|j: int| 0 <= j < i ==> ids@[j] < id,
        decreases n - i,
    {
        i = i + 1;
    }
    if i < n && ids[i] == id {
        proof {
            assert forall|x: u64| #[trigger] ids@.contains(x) <==> (old_seq.contains(x) || x
                == id) by {
                if x == id {
                    assert(ids@[i as int] == id);
                }
            }
        }
        return ;
    }
    ids.insert(i, id);
    proof {
        let new_seq = ids@;
        assert(new_seq =~= old_seq.insert(i as int, id));
        assert(forall|j: int| 0 <= j < i ==> new_seq[j] == old_seq[j]);
        assert(new_seq[i as int] == id);
        assert(forall|j: int| i < j < new_seq.len() ==> new_seq[j] == old_seq[j - 1]);
        assert forall|a: int, b: int| 0 <= a < b < new_seq.len() implies new_seq[a]
            < new_seq[b] by {
            if a == i {
                assert(b - 1 >= i);
                assert(i < old_seq.len());
                assert(old_seq[i as int] > id || old_seq[i as int] == id || old_seq[i as int]
                    < id);
                assert(old_seq[i as int] >= id);
                assert(old_seq[i as int] != id);
                if b - 1 > i {
                    assert(old_seq[i as int] < old_seq[b - 1]);
                }
            } else if b == i {
                assert(old_seq[a] < id);
            } else if b < i {
                assert(old_seq[a] < old_seq[b]);
            } else if a > i {
                assert(old_seq[a - 1] < old_seq[b - 1]);
            } else {
                assert(old_seq[a] < id);
                if b - 1 > i {
                    assert(old_seq[i as int] < old_seq[b - 1]);
                }
                assert(old_seq[b - 1] >= id);
            }
        }
        assert forall|x: u64| #[trigger] new_seq.contains(x) implies (old_seq.contains(x) || x
            == id) by {
            let m = choose|m: int| 0 <= m < new_seq.len() && (#[trigger] new_seq[m]) == x;
            assert(0 <= m < new_seq.len() && new_seq[m] == x);
            if m < i {
                assert(old_seq[m] == x);
            } else if m > i {
                assert(old_seq[m - 1] == x);
            }
        }
        assert forall|x: u64| (old_seq.contains(x) || x == id) implies #[trigger] new_seq.contains(
            x,
        ) by {
            if x == id {
                assert(new_seq[i as int] == id);
            } else if old_seq.contains(x) {
                let m = choose|m: int| 0 <= m < old_seq.len() && (#[trigger] old_seq[m]) == x;
                assert(0 <= m < old_seq.len() && old_seq[m] == x);
                if m < i {
                    assert(new_seq[m] == x);
                } else {
                    assert(new_seq[m + 1] == x);
                }
            }
        }
    }
}

/// The ids of the log files among the directory entry names, ascending and
/// without duplicates. A log-named entry whose stem is not a decimal id is
/// an error; other entries are ignored.
pub fn get_log_file_ids(names: &Vec<String>) -> (r: Result<Vec<u64>, KvsError>)
    ensures
        match r {
            Ok(ids) => {
                &&& forall|a: int, b: int| 0 <= a < b < ids@.len() ==> ids@[a] < ids@[b]
                &&& forall|id: u64| #[trigger] ids@.contains(id) <==> exists|i: int|
                    0 <= i < names@.len() && spec_name_id((#[trigger] names@[i])@) == Some(
                        id as int,
                    )
                &&& forall|i: int| 0 <= i < names@.len() ==> !spec_name_bad((#[trigger] names@[i])@)
            },
            Err(e) => {
                &&& e == KvsError::UnexpectedFileName
                &&& exists|i: int| 0 <= i < names@.len() && spec_name_bad((#[trigger] names@[i])@)
            },
        },
{
    let mut ids: Vec<u64> = Vec::new();
    let n = names.len();
    let mut i: usize = 0;
    while i < n
        invariant
            n == names@.len(),
            i <= n,
            forall|a: int, b: int| 0 <= a < b < ids@.len() ==> ids@[a] < ids@[b],
            forall|id: u64| #[trigger] ids@.contains(id) <==> exists|j: int|
                0 <= j < i && spec_name_id((#[trigger] names@[j])@) == Some(id as int),
            forall|j: int| 0 <= j < i ==> !spec_name_bad((#[trigger] names@[j])@),
        decreases n - i,
    {
        let ghost pre = ids@;
        match parse_name(&names[i]) {
            Ok(Some(id)) => {
                insert_id(&mut ids, id);
                proof {
                    assert forall|x: u64| #[trigger] ids@.contains(x) implies exists|j: int|
                        0 <= j < i + 1 && spec_name_id((#[trigger] names@[j])@) == Some(
                            x as int,
                        ) by {
                        if x == id {
                            assert(spec_name_id(names@[i as int]@) == Some(x as int));
                        } else {
                            assert(pre.contains(x));
                        }
                    }
                    assert forall|x: u64| (exists|j: int|
                        0 <= j < i + 1 && spec_name_id((#[trigger] names@[j])@) == Some(
                            x as int,
                        )) implies #[trigger] ids@.contains(x) by {
                        let j = choose|j: int|
                            0 <= j < i + 1 && spec_name_id((#[trigger] names@[j])@) == Some(
                                x as int,
                            );
                        if j < i {
                            assert(pre.contains(x));
                        }
                    }
                }
            },
            Ok(None) => {
                proof {
                    assert forall|x: u64| #[trigger] ids@.contains(x) implies exists|j: int|
                        0 <= j < i + 1 && spec_name_id((#[trigger] names@[j])@) == Some(
                            x as int,
                        ) by {
                        assert(pre.contains(x));
                    }
                    assert forall|x: u64| (exists|j: int|
                        0 <= j < i + 1 && spec_name_id((#[trigger] names@[j])@) == Some(
                            x as int,
                        )) implies #[trigger] ids@.contains(x) by {
                        let j = choose|j: int|
                            0 <= j < i + 1 && spec_name_id((#[trigger] names@[j])@) == Some(
                                x as int,
                            );
                        if j < i {
                            assert(pre.contains(x));
                        } else {
                            assert(spec_name_id(names@[i as int]@) is None);
                        }
                    }
                }
            },
            Err(e) => {
                return Err(e);
            },
        }
        i = i + 1;
    }
    Ok(ids)
}

/// The segment file names the store writes parse back to the ids they were
/// made from: discovery after a restart finds exactly the written segments.
pub proof fn lemma_name_round_trip(id: u64)
    ensures
        spec_name_id(spec_log_name(id)) == Some(id as int),
{
    reveal_strlit(".log");
    let name = spec_log_name(id);
    let dec = spec_decimal(id as int);
    lemma_decimal_digits(id as int);
    assert(name.skip(name.len() - 4) =~= ".log"@);
    assert(spec_is_log_name(name));
    assert(spec_log_stem(name) =~= dec);
    lemma_digits_val_of_decimal(id as int);
}

/// Every character of a decimal representation is a digit, and there is at
/// least one.
proof fn lemma_decimal_digits(n: int)
    requires
        n >= 0,
    ensures
        spec_decimal(n).len() >= 1,
        forall|i: int| 0 <= i < spec_decimal(n).len() ==> spec_is_digit(
            #[trigger] spec_decimal(n)[i],
        ),
    decreases n,
{
    if n >= 10 {
        lemma_decimal_digits(n / 10);
        assert forall|i: int| 0 <= i < spec_decimal(n).len() implies spec_is_digit(
            #[trigger] spec_decimal(n)[i],
        ) by {
            if i < spec_decimal(n / 10).len() {
                assert(spec_decimal(n)[i] == spec_decimal(n / 10)[i]);
            } else {
                assert(spec_decimal(n)[i] == spec_digit(n % 10));
            }
        }
    }
}

/// Reading the digits of a decimal representation gives the number back.
proof fn lemma_digits_val_of_decimal(n: int)
    requires
        n >= 0,
    ensures
        spec_digits_val(spec_decimal(n)) == n,
    decreases n,
{
    assert(spec_digits_val(Seq::<char>::empty()) == 0);
    if n < 10 {
        assert(spec_decimal(n) =~= seq![spec_digit(n)]);
        assert(spec_decimal(n).drop_last() =~= Seq::<char>::empty());
        assert(spec_digit_val(spec_digit(n)) == n);
        assert(spec_digits_val(spec_decimal(n)) == spec_digits_val(
            spec_decimal(n).drop_last(),
        ) * 10 + spec_digit_val(spec_decimal(n).last()));
    } else {
        lemma_digits_val_of_decimal(n / 10);
        assert(spec_decimal(n).drop_last() =~= spec_decimal(n / 10));
        assert(spec_decimal(n).last() == spec_digit(n % 10));
        assert(spec_digit_val(spec_digit(n % 10)) == n % 10);
        assert(spec_digits_val(spec_decimal(n)) == spec_digits_val(
            spec_decimal(n).drop_last(),
        ) * 10 + spec_digit_val(spec_decimal(n).last()));
        assert((n / 10) * 10 + n % 10 == n) by (nonlinear_arith)
            requires
                n >= 10,
        ;
    }
}

} // verus!
