//! The initial user stack of a new process: the SysV-style prologue of the
//! argument count, the argument pointers, an empty environment and the
//! auxiliary vector, with the argument strings and the random bytes above
//! it.
use vstd::prelude::*;
use crate::random::byte_of;

verus! {

/// How much of the stack reservation is mapped when a process starts; the
/// whole prologue must fit in it.
pub const INITIAL_STACK_MAPPED: u64 = 0x1_0000;

/// Auxiliary vector entry types, numbered as Linux numbers them.
pub const AT_NULL: u64 = 0;
pub const AT_PAGESZ: u64 = 6;
pub const AT_ENTRY: u64 = 9;
pub const AT_RANDOM: u64 = 25;

/// How many random bytes `AT_RANDOM` points at.
pub const RANDOM_BYTES: usize = 16;

/// Why a stack could not be built.
#[derive(Debug, Clone, Copy, PartialEq, Eq, Structural)]
pub enum StackError {
    /// The prologue does not fit in the initially mapped part of the stack.
    ArgsTooLarge,
    /// No frame was left to map the stack with.
    OutOfMemory,
}

/// The strings area: every argument followed by a NUL byte, in order.
pub open spec fn strings_flat(argv: Seq<Seq<u8>>) -> Seq<u8>
    decreases argv.len(),
{
    if argv.len() == 0 {
        Seq::empty()
    } else {
        strings_flat(argv.drop_last()) + argv.last() + seq![0u8]
    }
}

/// The arguments as byte sequences.
pub open spec fn args_of(argv: Seq<Vec<u8>>) -> Seq<Seq<u8>> {
    Seq::new(argv.len(), |i: int| argv[i]@)
}

/// Bytes of the pointer area: the count, `n` argument pointers and their
/// NULL, the environment's NULL, and four auxiliary pairs.
pub open spec fn pointer_area_len(n: int) -> int {
    8 * (n + 11)
}

/// Bytes the prologue needs before padding.
pub open spec fn image_len(argv: Seq<Seq<u8>>) -> int {
    pointer_area_len(argv.len() as int) + strings_flat(argv).len() + RANDOM_BYTES
}

/// The prologue's length rounded up to a multiple of 16, which keeps the
/// initial stack pointer 16-byte aligned.
pub open spec fn padded_len(argv: Seq<Seq<u8>>) -> int {
    (image_len(argv) + 15) / 16 * 16
}

/// Where the prologue starts: the initial stack pointer.
pub open spec fn image_base(argv: Seq<Seq<u8>>, top: u64) -> int {
    top - padded_len(argv)
}

/// Word `j` of the pointer area.
pub open spec fn stack_word(argv: Seq<Seq<u8>>, entry: u64, top: u64, j: int) -> u64 {
    let n = argv.len() as int;
    let strings = image_base(argv, top) + pointer_area_len(n);
    if j == 0 {
        n as u64
    } else if j <= n {
        (strings + strings_flat(argv.take(j - 1)).len()) as u64
    } else if j == n + 3 {
        AT_PAGESZ
    } else if j == n + 4 {
        4096
    } else if j == n + 5 {
        AT_ENTRY
    } else if j == n + 6 {
        entry
    } else if j == n + 7 {
        AT_RANDOM
    } else if j == n + 8 {
        (strings + strings_flat(argv).len()) as u64
    } else {
        0
    }
}

/// Byte `k` of the prologue: the pointer area in little-endian words, the
/// strings, the random bytes, then zero padding.
pub open spec fn image_byte(argv: Seq<Seq<u8>>, entry: u64, top: u64, random: Seq<u8>, k: int) -> u8 {
    let p = pointer_area_len(argv.len() as int);
    let s = strings_flat(argv).len() as int;
    if k < p {
        byte_of(stack_word(argv, entry, top, k / 8), k % 8)
    } else if k < p + s {
        strings_flat(argv)[k - p]
    } else if k < p + s + RANDOM_BYTES {
        random[k - p - s]
    } else {
        0
    }
}

/// The strings of a prefix of the arguments are a prefix of the strings
/// of a longer one.
proof fn lemma_flat_prefix(a: Seq<Seq<u8>>, i: int, j: int)
    requires
        0 <= i <= j <= a.len(),
    ensures
        strings_flat(a.take(i)).len() <= strings_flat(a.take(j)).len(),
        strings_flat(a.take(j)).subrange(0, strings_flat(a.take(i)).len() as int) == strings_flat(a.take(i)),
    decreases j - i,
{
    if i < j {
        lemma_flat_prefix(a, i, j - 1);
        lemma_flat_step(a, j - 1);
        let fi = strings_flat(a.take(i));
        let fj1 = strings_flat(a.take(j - 1));
        let fj = strings_flat(a.take(j));
        assert(fj.subrange(0, fi.len() as int) =~= fj1.subrange(0, fi.len() as int));
    }
}

/// Taking one more argument appends it and its NUL.
proof fn lemma_flat_step(a: Seq<Seq<u8>>, i: int)
    requires
        0 <= i < a.len(),
    ensures
        strings_flat(a.take(i + 1)) == strings_flat(a.take(i)) + a[i] + seq![0u8],
        strings_flat(a.take(i + 1)).len() == strings_flat(a.take(i)).len() + a[i].len() + 1,
{
    assert(a.take(i + 1).drop_last() =~= a.take(i));
}

/// Builds the stack prologue of a process entered at `entry` with
/// arguments `argv`, as it is to lie just below `stack_top`: every pointer
/// in it is the address it points to there. `random` is what `AT_RANDOM`
/// points at. `ArgsTooLarge` if it would not fit in the initially mapped
/// part of the stack.
pub fn build_image(entry: u64, argv: &[Vec<u8>], random: &[u8; 16], stack_top: u64) -> (r: Result<Vec<u8>, StackError>)
    requires
        stack_top >= INITIAL_STACK_MAPPED,
    ensures
        match r {
            Ok(img) => {
                &&& image_len(args_of(argv@)) <= INITIAL_STACK_MAPPED
                &&& img@ == Seq::new(padded_len(args_of(argv@)) as nat,
                    |k: int| image_byte(args_of(argv@), entry, stack_top, random@, k))
            },
            Err(e) => e == StackError::ArgsTooLarge && image_len(args_of(argv@)) > INITIAL_STACK_MAPPED,
        },
{
    let ghost a = args_of(argv@);
    let n = argv.len();
    proof {
        assert(a.take(n as int) =~= a);
        lemma_flat_prefix(a, 0, n as int);
    }
    if n > 8192 {
        return Err(StackError::ArgsTooLarge);
    }
    let p: usize = 8 * (n + 11);
    if p + RANDOM_BYTES > 0x1_0000 {
        return Err(StackError::ArgsTooLarge);
    }
    let mut total: usize = 0;
    let mut i: usize = 0;
    while i < n
        invariant
            n == argv.len(),
            n <= 8192,
            p == pointer_area_len(n as int),
            a == args_of(argv@),
            a.len() == n,
            0 <= i <= n,
            total == strings_flat(a.take(i as int)).len(),
            p + total + RANDOM_BYTES <= INITIAL_STACK_MAPPED,
        decreases n - i,
    {
        let len = argv[i].len();
        proof {
            lemma_flat_step(a, i as int);
            lemma_flat_prefix(a, i as int + 1, n as int);
            assert(a.take(n as int) =~= a);
        }
        if len >= 0x1_0000 || p + total + len + 1 + RANDOM_BYTES > 0x1_0000 {
            return Err(StackError::ArgsTooLarge);
        }
        total = total + len + 1;
        i = i + 1;
    }
    proof {
        assert(a.take(n as int) =~= a);
    }
    let img_len: usize = p + total + RANDOM_BYTES;
    let padded: usize = (img_len + 15) / 16 * 16;
    let base: u64 = stack_top - padded as u64;
    let mut image: Vec<u8> = Vec::new();
    while image.len() < padded
        invariant
            padded <= 0x1_0000,
            image.len() <= padded,
            forall|k: int| 0 <= k < image@.len() ==> image@[k] == 0,
        decreases padded - image.len(),
    {
        image.push(0);
    }
    let ghost flat = strings_flat(a);
    let mut ptrs: Vec<u64> = Vec::new();
    let mut off: usize = p;
    i = 0;
    while i < n
        invariant
            n == argv.len(),
            a == args_of(argv@),
            a.len() == n,
            flat == strings_flat(a),
            p == pointer_area_len(n as int),
            p + flat.len() + RANDOM_BYTES == img_len,
            img_len <= padded,
            padded <= 0x1_0000,
            base == stack_top - padded,
            stack_top >= INITIAL_STACK_MAPPED,
            image@.len() == padded,
            0 <= i <= n,
            off == p + strings_flat(a.take(i as int)).len(),
            ptrs@.len() == i,
            forall|q: int| 0 <= q < i ==> ptrs@[q] == base + p + strings_flat(a.take(q)).len(),
            forall|k: int| 0 <= k < p ==> image@[k] == 0,
            forall|k: int| p <= k < off ==> image@[k] == strings_flat(a.take(i as int))[k - p],
            forall|k: int| off <= k < padded ==> image@[k] == 0,
        decreases n - i,
    {
        proof {
            lemma_flat_step(a, i as int);
            lemma_flat_prefix(a, i as int + 1, n as int);
            assert(a.take(n as int) =~= a);
        }
        let ghost before = image@;
        let ghost fi = strings_flat(a.take(i as int));
        ptrs.push(base + off as u64);
        let arg = &argv[i];
        let len = arg.len();
        let mut b: usize = 0;
        while b < len
            invariant
                len == arg@.len(),
                arg@ == a[i as int],
                off + len + 1 <= p + flat.len(),
                p + flat.len() <= padded,
                image@.len() == padded,
                0 <= b <= len,
                forall|k: int| 0 <= k < off ==> image@[k] == before[k],
                forall|k: int| off <= k < off + b ==> image@[k] == arg@[k - off],
                forall|k: int| off + b <= k < padded ==> image@[k] == before[k],
            decreases len - b,
        {
            image.set(off + b, arg[b]);
            b = b + 1;
        }
        image.set(off + len, 0);
        proof {
            let fi1 = strings_flat(a.take(i as int + 1));
            assert(fi1 == fi + a[i as int] + seq![0u8]);
            assert forall|k: int| p <= k < off + len + 1 implies image@[k] == fi1[k - p] by {
                assert(off == p + fi.len());
                if k < off {
                    assert(image@[k] == before[k]);
                    assert(fi1[k - p] == fi[k - p]);
                } else if k < off + len {
                    assert(image@[k] == arg@[k - off]);
                    assert(fi1[k - p] == a[i as int][k - off]);
                } else {
                    assert(image@[k] == 0);
                    assert(fi1[k - p] == 0);
                }
            }
            assert forall|q: int| 0 <= q < i + 1 implies ptrs@[q] == base + p + strings_flat(a.take(q)).len() by {
            }
            assert forall|k: int| 0 <= k < p implies image@[k] == 0 by {
                assert(image@[k] == before[k]);
            }
            assert forall|k: int| off + len + 1 <= k < padded implies image@[k] == 0 by {
                assert(image@[k] == before[k]);
            }
        }
        off = off + len + 1;
        i = i + 1;
    }
    proof {
        assert(a.take(n as int) =~= a);
        assert(off == p + flat.len());
    }
    let random_addr: u64 = base + off as u64;
    let ghost with_strings = image@;
    let mut b: usize = 0;
    while b < RANDOM_BYTES
        invariant
            off + RANDOM_BYTES == img_len,
            img_len <= padded,
            image@.len() == padded,
            random@.len() == 16,
            0 <= b <= RANDOM_BYTES,
            forall|k: int| 0 <= k < off ==> image@[k] == with_strings[k],
            forall|k: int| off <= k < off + b ==> image@[k] == random@[k - off],
            forall|k: int| off + b <= k < padded ==> image@[k] == 0,
        decreases RANDOM_BYTES - b,
    {
        image.set(off + b, random[b]);
        b = b + 1;
    }
    let ghost body = image@;
    proof {
        assert forall|k: int| p <= k < padded implies body[k] == image_byte(a, entry, stack_top, random@, k) by {
            if k < off {
                assert(body[k] == with_strings[k]);
            }
        }
    }
    let words: usize = n + 11;
    let mut j: usize = 0;
    while j < words
        invariant
            n == argv.len(),
            a.len() == n,
            words == n + 11,
            p == 8 * words,
            flat == strings_flat(a),
            off == p + flat.len(),
            off + RANDOM_BYTES == img_len,
            img_len == image_len(a),
            padded == padded_len(a),
            padded <= 0x1_0000,
            base == stack_top - padded,
            stack_top >= INITIAL_STACK_MAPPED,
            random_addr == base + off,
            ptrs@.len() == n,
            forall|q: int| 0 <= q < n ==> ptrs@[q] == base + p + strings_flat(a.take(q)).len(),
            image@.len() == padded,
            0 <= j <= words,
            forall|k: int| p <= k < padded ==> image@[k] == body[k],
            forall|k: int| 0 <= k < 8 * j ==> image@[k] == byte_of(stack_word(a, entry, stack_top, k / 8), k % 8),
        decreases words - j,
    {
        let value: u64 = if j == 0 {
            n as u64
        } else if j <= n {
            ptrs[j - 1]
        } else if j == n + 3 {
            AT_PAGESZ
        } else if j == n + 4 {
            4096
        } else if j == n + 5 {
            AT_ENTRY
        } else if j == n + 6 {
            entry
        } else if j == n + 7 {
            AT_RANDOM
        } else if j == n + 8 {
            random_addr
        } else {
            AT_NULL
        };
        proof {
            if 1 <= j <= n {
                lemma_flat_prefix(a, j - 1, n as int);
                assert(a.take(n as int) =~= a);
            }
            assert(value == stack_word(a, entry, stack_top, j as int));
        }
        let mut b: usize = 0;
        while b < 8
            invariant
                p == 8 * words,
                j < words,
                image@.len() == padded,
                padded >= p,
                value == stack_word(a, entry, stack_top, j as int),
                0 <= b <= 8,
                forall|k: int| p <= k < padded ==> image@[k] == body[k],
                forall|k: int| 0 <= k < 8 * j ==> image@[k] == byte_of(stack_word(a, entry, stack_top, k / 8), k % 8),
                forall|k: int| 8 * j <= k < 8 * j + b ==> image@[k] == byte_of(value, k - 8 * j),
            decreases 8 - b,
        {
            image.set(8 * j + b, ((value >> ((8 * b) as u64)) & 0xff) as u8);
            b = b + 1;
        }
        proof {
            assert forall|k: int| 0 <= k < 8 * (j + 1) implies image@[k] == byte_of(stack_word(a, entry, stack_top, k / 8), k % 8) by {
                if k >= 8 * j {
                    assert(k / 8 == j && k % 8 == k - 8 * j);
                }
            }
        }
        j = j + 1;
    }
    proof {
        assert forall|k: int| 0 <= k < padded implies image@[k] == image_byte(a, entry, stack_top, random@, k) by {
            if k < p {
                assert(image@[k] == byte_of(stack_word(a, entry, stack_top, k / 8), k % 8));
            } else {
                assert(image@[k] == body[k]);
            }
        }
        assert(image@ =~= Seq::new(padded_len(a) as nat, |k: int| image_byte(a, entry, stack_top, random@, k)));
    }
    Ok(image)
}

} // verus!
