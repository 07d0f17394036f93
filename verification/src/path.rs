//! Paths as they are shown: relative to the working directory where that is
//! shorter.

use vstd::prelude::*;

verus! {

/// The byte `/`.
pub const SLASH: u8 = 47;

/// The byte `.`.
pub const DOT: u8 = 46;

/// Whether `full` begins with `prefix`.
pub open spec fn starts(full: Seq<u8>, prefix: Seq<u8>) -> bool {
    prefix.len() <= full.len() && full.take(prefix.len() as int) == prefix
}

/// What is left of `full` below the directory `prefix`: what follows the
/// prefix and the slash after it, or nothing where `full` does not begin
/// with the prefix and a slash. A prefix that ends in a slash needs no
/// other.
pub open spec fn stripped(prefix: Seq<u8>, full: Seq<u8>) -> Option<Seq<u8>> {
    if !starts(full, prefix) {
        None
    } else {
        let rest = full.skip(prefix.len() as int);
        if prefix.len() > 0 && prefix.last() == SLASH {
            Some(rest)
        } else if rest.len() > 0 && rest[0] == SLASH {
            Some(rest.skip(1))
        } else {
            None
        }
    }
}

/// The length of the first part of a path: up to its first slash and with
/// it, or all of it where it has none.
pub open spec fn part_len(s: Seq<u8>) -> int
    decreases s.len(),
{
    if s.len() == 0 {
        0
    } else if s[0] == SLASH {
        1
    } else {
        1 + part_len(s.skip(1))
    }
}

/// The first part of a path that is not empty is not empty, and lies in the
/// path.
pub proof fn lemma_part_len(s: Seq<u8>)
    ensures
        0 <= part_len(s) <= s.len(),
        s.len() > 0 ==> part_len(s) >= 1,
    decreases s.len(),
{
    if s.len() > 0 && s[0] != SLASH {
        lemma_part_len(s.skip(1));
    }
}

/// How many parts a path has.
pub open spec fn count_parts(s: Seq<u8>) -> int
    decreases s.len(),
{
    let n = part_len(s);
    if s.len() == 0 || n < 1 || n > s.len() {
        0
    } else {
        1 + count_parts(s.skip(n))
    }
}

/// Goes down the parts of the directory `dir` while `rel` lies below them:
/// how many parts are left when it does not, and what is left of `rel`.
pub open spec fn walk(dir: Seq<u8>, rel: Seq<u8>) -> (int, Seq<u8>)
    decreases dir.len(),
{
    let n = part_len(dir);
    if dir.len() == 0 || n < 1 || n > dir.len() {
        (0, rel)
    } else {
        match stripped(dir.take(n), rel) {
            Some(rest) => walk(dir.skip(n), rest),
            None => (count_parts(dir), rel),
        }
    }
}

/// `./`
pub open spec fn here() -> Seq<u8> {
    seq![DOT, SLASH]
}

/// `../`, `n` times.
pub open spec fn ups(n: int) -> Seq<u8>
    decreases n,
{
    if n <= 0 {
        Seq::<u8>::empty()
    } else {
        ups(n - 1) + seq![DOT, DOT, SLASH]
    }
}

/// The path `full` as it is shown from the directory `dir`. Below the
/// directory it is shown from `./`, where that saves anything. Elsewhere it
/// is shown with a `../` for each part of the directory that has to be
/// left, where those are less than five and that saves anything. Else, and
/// where the directory is not known, it is shown as it is.
pub open spec fn relative(dir: Option<Seq<u8>>, full: Seq<u8>) -> Seq<u8> {
    match dir {
        None => full,
        Some(d) => match stripped(d, full) {
            Some(rest) => if rest.len() + 2 < full.len() {
                here() + rest
            } else {
                full
            },
            None => {
                let (up, rel) = walk(d, full);
                let cost = if up * 3 > 2 {
                    up * 3
                } else {
                    2
                };
                if up < 5 && rel.len() + cost < full.len() {
                    (if up == 0 {
                        here()
                    } else {
                        ups(up)
                    }) + rel
                } else {
                    full
                }
            },
        },
    }
}

/// The bytes of an optional slice.
pub open spec fn opt_bytes(o: Option<&[u8]>) -> Option<Seq<u8>> {
    match o {
        Some(s) => Some(s@),
        None => None,
    }
}

/// Where the first part of `s` from `from` on ends.
fn part_end(s: &[u8], from: usize) -> (to: usize)
    requires
        from < s@.len(),
    ensures
        from < to <= s@.len(),
        to - from == part_len(s@.skip(from as int)),
{
    let mut i: usize = from;
    let ghost all = s@.skip(from as int);
    while i < s.len() && s[i] != SLASH
        invariant
            from <= i <= s@.len(),
            all == s@.skip(from as int),
            part_len(all) == (i - from) + part_len(s@.skip(i as int)),
        decreases s@.len() - i,
    {
        proof {
            let cur = s@.skip(i as int);
            assert(cur[0] == s@[i as int]);
            assert(cur.skip(1) =~= s@.skip(i + 1));
        }
        i += 1;
    }
    if i < s.len() {
        proof {
            let cur = s@.skip(i as int);
            assert(cur[0] == s@[i as int]);
        }
        i + 1
    } else {
        proof {
            assert(s@.skip(i as int).len() == 0);
            lemma_part_len(all);
        }
        i
    }
}

/// How many parts `s` has from `from` on.
fn count_from(s: &[u8], from: usize) -> (n: usize)
    requires
        from <= s@.len(),
    ensures
        n == count_parts(s@.skip(from as int)),
        n <= s@.len() - from,
{
    let mut i: usize = from;
    let mut n: usize = 0;
    while i < s.len()
        invariant
            from <= i <= s@.len(),
            n <= i - from,
            count_parts(s@.skip(from as int)) == n + count_parts(s@.skip(i as int)),
        decreases s@.len() - i,
    {
        let to = part_end(s, i);
        proof {
            let cur = s@.skip(i as int);
            assert(cur.skip(to - i) =~= s@.skip(to as int));
        }
        n += 1;
        i = to;
    }
    n
}

/// What is left of `full` from `at` on below the directory that `prefix`
/// holds from `lo` to `hi`: the place where it begins.
fn strip_at(prefix: &[u8], lo: usize, hi: usize, full: &[u8], at: usize) -> (r: Option<usize>)
    requires
        lo <= hi <= prefix@.len(),
        at <= full@.len(),
    ensures
        match r {
            Some(k) => at <= k <= full@.len() && stripped(
                prefix@.subrange(lo as int, hi as int),
                full@.skip(at as int),
            ) == Some(full@.skip(k as int)),
            None => stripped(prefix@.subrange(lo as int, hi as int), full@.skip(at as int))
                is None,
        },
{
    let ghost p = prefix@.subrange(lo as int, hi as int);
    let ghost f = full@.skip(at as int);
    let n = hi - lo;
    let len = full.len();
    if n > len - at {
        return None;
    }
    let mut i: usize = 0;
    while i < n
        invariant
            i <= n,
            len == full@.len(),
            n == hi - lo,
            lo <= hi <= prefix@.len(),
            at + n <= full@.len(),
            p == prefix@.subrange(lo as int, hi as int),
            f == full@.skip(at as int),
            f.take(i as int) == p.take(i as int),
        decreases n - i,
    {
        if prefix[lo + i] != full[at + i] {
            proof {
                assert(p[i as int] != f[i as int]);
                assert(f.take(n as int)[i as int] == f[i as int]);
            }
            return None;
        }
        proof {
            assert(f.take(i + 1) =~= f.take(i as int).push(f[i as int]));
            assert(p.take(i + 1) =~= p.take(i as int).push(p[i as int]));
        }
        i += 1;
    }
    proof {
        assert(p.take(n as int) =~= p);
        assert(f.skip(n as int) =~= full@.skip(at + n));
    }
    let k = at + n;
    if n > 0 && prefix[hi - 1] == SLASH {
        Some(k)
    } else if k < full.len() && full[k] == SLASH {
        proof {
            assert(f.skip(n as int)[0] == full@[k as int]);
            assert(f.skip(n as int).skip(1) =~= full@.skip(k + 1));
        }
        Some(k + 1)
    } else {
        proof {
            if k < full@.len() {
                assert(f.skip(n as int)[0] == full@[k as int]);
            }
        }
        None
    }
}

/// Goes down the parts of the directory: see `walk`. What is left of `full`
/// is given by the place where it begins.
fn walk_down(dir: &[u8], full: &[u8]) -> (r: (usize, usize))
    ensures
        r.1 <= full@.len(),
        walk(dir@, full@) == (r.0 as int, full@.skip(r.1 as int)),
{
    let mut i: usize = 0;
    let mut at: usize = 0;
    assert(dir@.skip(0) =~= dir@);
    assert(full@.skip(0) =~= full@);
    while i < dir.len()
        invariant
            i <= dir@.len(),
            at <= full@.len(),
            walk(dir@, full@) == walk(dir@.skip(i as int), full@.skip(at as int)),
        decreases dir@.len() - i,
    {
        let to = part_end(dir, i);
        proof {
            let cur = dir@.skip(i as int);
            assert(cur.take(to - i) =~= dir@.subrange(i as int, to as int));
            assert(cur.skip(to - i) =~= dir@.skip(to as int));
        }
        match strip_at(dir, i, to, full, at) {
            Some(k) => {
                at = k;
                i = to;
            },
            None => {
                let up = count_from(dir, i);
                return (up, at);
            },
        }
    }
    (0, at)
}

/// Adds the bytes of `src` from `from` on to `out`.
fn push_from(out: &mut Vec<u8>, src: &[u8], from: usize)
    requires
        from <= src@.len(),
    ensures
        final(out)@ == old(out)@ + src@.skip(from as int),
{
    let ghost before = out@;
    let mut i: usize = from;
    assert(src@.subrange(from as int, from as int) =~= Seq::<u8>::empty());
    assert(out@ =~= before + src@.subrange(from as int, i as int));
    while i < src.len()
        invariant
            from <= i <= src@.len(),
            out@ == before + src@.subrange(from as int, i as int),
        decreases src@.len() - i,
    {
        out.push(src[i]);
        proof {
            assert(src@.subrange(from as int, i + 1) =~= src@.subrange(from as int, i as int).push(
                src@[i as int],
            ));
        }
        i += 1;
    }
    assert(src@.subrange(from as int, src@.len() as int) =~= src@.skip(from as int));
}

/// The path `full` as it is shown from the directory `dir`: see `relative`.
pub fn relative_path(dir: Option<&[u8]>, full: &[u8]) -> (out: Vec<u8>)
    ensures
        out@ == relative(opt_bytes(dir), full@),
{
    let mut out: Vec<u8> = Vec::new();
    let d = match dir {
        Some(d) => d,
        None => {
            push_from(&mut out, full, 0);
            assert(out@ =~= full@);
            return out;
        },
    };
    assert(opt_bytes(dir) == Some(d@));
    let n = d.len();
    assert(full@.skip(0) =~= full@);
    assert(d@.subrange(0, n as int) =~= d@);
    match strip_at(d, 0, n, full, 0) {
        Some(k) => {
            if k > 2 {
                out.push(DOT);
                out.push(SLASH);
                assert(out@ =~= here());
                push_from(&mut out, full, k);

            } else {
                push_from(&mut out, full, 0);
                assert(out@ =~= full@);
            }
        },
        None => {
            let (up, at) = walk_down(d, full);
            let cost: usize = if up < 5 && up * 3 > 2 {
                up * 3
            } else {
                2
            };
            if up < 5 && at > cost {
                if up == 0 {
                    out.push(DOT);
                    out.push(SLASH);
                    assert(out@ =~= here());
                } else {
                    let mut n: usize = 0;
                    while n < up
                        invariant
                            n <= up,
                            out@ == ups(n as int),
                        decreases up - n,
                    {
                        let ghost before = out@;
                        out.push(DOT);
                        out.push(DOT);
                        out.push(SLASH);
                        assert(out@ =~= before + seq![DOT, DOT, SLASH]);
                        n += 1;
                    }
                }
                push_from(&mut out, full, at);
            } else {
                push_from(&mut out, full, 0);
                assert(out@ =~= full@);
            }
        },
    }
    out
}

} // verus!
