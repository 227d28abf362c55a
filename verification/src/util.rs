//! Driver helpers: hexadecimal formatting of byte strings, and
//! deterministic pseudo-random test data — keys, values and a shuffle —
//! for exercising and benchmarking the store.

use vstd::prelude::*;
use vstd::string::StringExecFns;

use rand::seq::SliceRandom;
use rand::Rng;
use rand::SeedableRng;

use crate::codec::push_u64_be;

verus! {

/// The lower-case hexadecimal digit for a value below sixteen.
pub open spec fn hex_digit(n: int) -> char {
    if n == 0 {
        '0'
    } else if n == 1 {
        '1'
    } else if n == 2 {
        '2'
    } else if n == 3 {
        '3'
    } else if n == 4 {
        '4'
    } else if n == 5 {
        '5'
    } else if n == 6 {
        '6'
    } else if n == 7 {
        '7'
    } else if n == 8 {
        '8'
    } else if n == 9 {
        '9'
    } else if n == 10 {
        'a'
    } else if n == 11 {
        'b'
    } else if n == 12 {
        'c'
    } else if n == 13 {
        'd'
    } else if n == 14 {
        'e'
    } else {
        'f'
    }
}

/// The hexadecimal spelling of a byte string: two lower-case digits per
/// byte, high nibble first.
pub open spec fn hex_of(s: Seq<u8>) -> Seq<char>
    decreases s.len(),
{
    if s.len() == 0 {
        Seq::empty()
    } else {
        hex_of(s.drop_last()) + seq![
            hex_digit((s.last() >> 4) as int),
            hex_digit((s.last() & 15) as int),
        ]
    }
}

fn push_hex_digit(out: &mut String, nibble: u8)
    requires
        nibble < 16,
    ensures
        final(out)@ == old(out)@ + seq![hex_digit(nibble as int)],
{
    match nibble {
        0 => {
            proof {
                reveal_strlit("0");
            }
            out.append("0");
            proof {
                assert(out@ =~= old(out)@ + seq![hex_digit(nibble as int)]);
            }
            return ;
        },
        1 => {
            proof {
                reveal_strlit("1");
            }
            out.append("1");
            proof {
                assert(out@ =~= old(out)@ + seq![hex_digit(nibble as int)]);
            }
            return ;
        },
        2 => {
            proof {
                reveal_strlit("2");
            }
            out.append("2");
            proof {
                assert(out@ =~= old(out)@ + seq![hex_digit(nibble as int)]);
            }
            return ;
        },
        3 => {
            proof {
                reveal_strlit("3");
            }
            out.append("3");
            proof {
                assert(out@ =~= old(out)@ + seq![hex_digit(nibble as int)]);
            }
            return ;
        },
        4 => {
            proof {
                reveal_strlit("4");
            }
            out.append("4");
            proof {
                assert(out@ =~= old(out)@ + seq![hex_digit(nibble as int)]);
            }
            return ;
        },
        5 => {
            proof {
                reveal_strlit("5");
            }
            out.append("5");
            proof {
                assert(out@ =~= old(out)@ + seq![hex_digit(nibble as int)]);
            }
            return ;
        },
        6 => {
            proof {
                reveal_strlit("6");
            }
            out.append("6");
            proof {
                assert(out@ =~= old(out)@ + seq![hex_digit(nibble as int)]);
            }
            return ;
        },
        7 => {
            proof {
                reveal_strlit("7");
            }
            out.append("7");
            proof {
                assert(out@ =~= old(out)@ + seq![hex_digit(nibble as int)]);
            }
            return ;
        },
        8 => {
            proof {
                reveal_strlit("8");
            }
            out.append("8");
            proof {
                assert(out@ =~= old(out)@ + seq![hex_digit(nibble as int)]);
            }
            return ;
        },
        9 => {
            proof {
                reveal_strlit("9");
            }
            out.append("9");
            proof {
                assert(out@ =~= old(out)@ + seq![hex_digit(nibble as int)]);
            }
            return ;
        },
        10 => {
            proof {
                reveal_strlit("a");
            }
            out.append("a");
            proof {
                assert(out@ =~= old(out)@ + seq![hex_digit(nibble as int)]);
            }
            return ;
        },
        11 => {
            proof {
                reveal_strlit("b");
            }
            out.append("b");
            proof {
                assert(out@ =~= old(out)@ + seq![hex_digit(nibble as int)]);
            }
            return ;
        },
        12 => {
            proof {
                reveal_strlit("c");
            }
            out.append("c");
            proof {
                assert(out@ =~= old(out)@ + seq![hex_digit(nibble as int)]);
            }
            return ;
        },
        13 => {
            proof {
                reveal_strlit("d");
            }
            out.append("d");
            proof {
                assert(out@ =~= old(out)@ + seq![hex_digit(nibble as int)]);
            }
            return ;
        },
        14 => {
            proof {
                reveal_strlit("e");
            }
            out.append("e");
            proof {
                assert(out@ =~= old(out)@ + seq![hex_digit(nibble as int)]);
            }
            return ;
        },
        _ => {
            proof {
                reveal_strlit("f");
            }
            out.append("f");
            proof {
                assert(out@ =~= old(out)@ + seq![hex_digit(nibble as int)]);
            }
        },
    }
}

/// Format a byte string as lower-case hexadecimal, two digits per byte.
pub fn hex(src: &[u8]) -> (r: String)
    ensures
        r@ == hex_of(src@),
{
    let mut out = String::new();
    let mut i: usize = 0;
    proof {
        assert(src@.subrange(0, 0) =~= Seq::<u8>::empty());
    }
    while i < src.len()
        invariant
            i <= src@.len(),
            out@ == hex_of(src@.subrange(0, i as int)),
        decreases src@.len() - i,
    {
        let b = src[i];
        proof {
            assert((b >> 4) < 16 && (b & 15) < 16) by (bit_vector);
        }
        push_hex_digit(&mut out, b >> 4);
        push_hex_digit(&mut out, b & 15);
        proof {
            let sub = src@.subrange(0, i + 1);
            assert(sub.drop_last() =~= src@.subrange(0, i as int));
            assert(sub.last() == src@[i as int]);
            assert(out@ =~= hex_of(sub));
        }
        i += 1;
    }
    proof {
        assert(src@.subrange(0, src@.len() as int) =~= src@);
    }
    out
}

/// Powers of ten.
pub open spec fn pow10(e: nat) -> nat
    decreases e,
{
    if e == 0 {
        1
    } else {
        10 * pow10((e - 1) as nat)
    }
}

/// The on-disk name of a log file: its identifier as a 20-digit
/// zero-padded decimal, followed by the data extension.
pub open spec fn log_file_name(id: u64) -> Seq<char> {
    Seq::new(20, |i: int| hex_digit((((id as nat) / pow10((19 - i) as nat)) % 10) as int))
        + seq!['.', 'd', 'a', 't']
}

proof fn lemma_pow10_pos(e: nat)
    ensures
        pow10(e) >= 1,
    decreases e,
{
    if e > 0 {
        lemma_pow10_pos((e - 1) as nat);
    }
}

/// Format the on-disk file name of a log file.
pub fn log_name(id: u64) -> (r: String)
    ensures
        r@ == log_file_name(id),
{
    let mut out = String::new();
    let mut d: u64 = 10_000_000_000_000_000_000;
    let mut i: usize = 0;
    proof {
        reveal_with_fuel(pow10, 21);
        assert(pow10(19) == 10_000_000_000_000_000_000);
    }
    while i < 20
        invariant
            i <= 20,
            i < 20 ==> d as nat == pow10((19 - i) as nat),
            out@ == Seq::new(
                i as nat,
                |j: int| hex_digit((((id as nat) / pow10((19 - j) as nat)) % 10) as int),
            ),
        decreases 20 - i,
    {
        proof {
            lemma_pow10_pos((19 - i) as nat);
        }
        let digit = (id / d) % 10;
        push_hex_digit(&mut out, digit as u8);
        proof {
            assert((id / d) as nat == (id as nat) / (d as nat)) by (nonlinear_arith)
                requires
                    d > 0,
            ;
            assert(out@ =~= Seq::new(
                (i + 1) as nat,
                |j: int| hex_digit((((id as nat) / pow10((19 - j) as nat)) % 10) as int),
            ));
            if i < 19 {
                assert(pow10((19 - i) as nat) == 10 * pow10((18 - i) as nat));
                assert((d / 10) as nat == pow10((18 - i) as nat)) by (nonlinear_arith)
                    requires
                        d as nat == 10 * pow10((18 - i) as nat),
                ;
            }
        }
        d = d / 10;
        i += 1;
    }
    proof {
        reveal_strlit(".dat");
        assert(".dat"@ =~= seq!['.', 'd', 'a', 't']);
    }
    out.append(".dat");
    proof {
        assert(out@ =~= log_file_name(id));
    }
    out
}

#[verifier::external_type_specification]
#[verifier::external_body]
pub struct ExStdRng(rand::rngs::StdRng);

/// Relies on rand's `StdRng::seed_from_u64`: a generator built from the
/// seed.  Nothing is assumed about the values it will produce.
#[verifier::external_body]
fn rng_from_seed(seed: u64) -> rand::rngs::StdRng {
    rand::rngs::StdRng::seed_from_u64(seed)
}

/// Relies on rand's `Rng::next_u64`; any value may come back.
#[verifier::external_body]
fn rng_next(rng: &mut rand::rngs::StdRng) -> u64 {
    rng.next_u64()
}

/// Relies on rand's `SliceRandom::shuffle`: the slice is permuted in
/// place, so the same elements come back, as a multiset.
#[verifier::external_body]
fn shuffle_vec<T>(data: &mut Vec<T>, rng: &mut rand::rngs::StdRng)
    ensures
        final(data)@.to_multiset() == old(data)@.to_multiset(),
{
    data.shuffle(rng)
}

/// `count` pseudo-random pairs of a 64-byte key and a 64-byte value,
/// deterministic in the seed.
pub fn data(count: usize, seed: u64) -> (r: Vec<(Vec<u8>, Vec<u8>)>)
    ensures
        r@.len() == count,
        forall|i: int|
            0 <= i < r@.len() ==> (#[trigger] r@[i]).0@.len() == 64 && r@[i].1@.len() == 64,
{
    let mut rng = rng_from_seed(seed);
    let mut out: Vec<(Vec<u8>, Vec<u8>)> = Vec::new();
    let mut n: usize = 0;
    while n < count
        invariant
            n <= count,
            out@.len() == n,
            forall|i: int|
                0 <= i < out@.len() ==> (#[trigger] out@[i]).0@.len() == 64 && out@[i].1@.len()
                    == 64,
        decreases count - n,
    {
        let mut key: Vec<u8> = Vec::new();
        let mut val: Vec<u8> = Vec::new();
        let mut j: usize = 0;
        while j < 8
            invariant
                j <= 8,
                key@.len() == 8 * j,
                val@.len() == 8 * j,
            decreases 8 - j,
        {
            let kw = rng_next(&mut rng);
            let vw = rng_next(&mut rng);
            push_u64_be(&mut key, kw);
            push_u64_be(&mut val, vw);
            j += 1;
        }
        out.push((key, val));
        n += 1;
    }
    out
}

/// Reorder the elements pseudo-randomly, deterministic in the seed; the
/// same elements come back, as a multiset.
pub fn mix<T>(data: Vec<T>, seed: u64) -> (r: Vec<T>)
    ensures
        r@.to_multiset() == data@.to_multiset(),
{
    let mut rng = rng_from_seed(seed);
    let mut shuffled = data;
    shuffle_vec(&mut shuffled, &mut rng);
    shuffled
}

} // verus!
