//! The stack that a program starts with.

use vstd::prelude::*;

verus! {

pub const AT_PHDR: u64 = 3;

pub const AT_PHENT: u64 = 4;

pub const AT_PHNUM: u64 = 5;

pub const AT_PAGESZ: u64 = 6;

pub const AT_BASE: u64 = 7;

pub const AT_ENTRY: u64 = 9;

pub const AT_RANDOM: u64 = 25;

/// The bytes of a page.
pub const STACK_PAGE: u64 = 4096;

/// What a program is told of its image.
#[derive(Clone, Copy, Debug, PartialEq, Eq, Structural)]
pub struct AuxInfo {
    pub phdr: u64,
    pub phent: u64,
    pub phnum: u64,
    pub entry: u64,
    /// Where the interpreter is, where there is one.
    pub base: Option<u64>,
}

/// The bytes that the first `n` texts take, each with a zero behind it.
pub open spec fn text_bytes(texts: Seq<Vec<u8>>, n: int) -> int
    decreases n,
{
    if n <= 0 {
        0
    } else {
        text_bytes(texts, n - 1) + texts[n - 1]@.len() + 1
    }
}

/// The bytes that all texts take.
pub open spec fn all_bytes(texts: Seq<Vec<u8>>) -> int {
    text_bytes(texts, texts.len() as int)
}

/// Where the texts are, when they are put below an address one after the other.
pub open spec fn text_places(texts: Seq<Vec<u8>>, top: int) -> Seq<u64> {
    Seq::new(texts.len(), |i: int| (top - text_bytes(texts, i + 1)) as u64)
}

/// The pairs that tell of the image.
pub open spec fn aux_words(info: AuxInfo, random_at: u64) -> Seq<u64> {
    let first = seq![
        AT_PHDR,
        info.phdr,
        AT_PHENT,
        info.phent,
        AT_PHNUM,
        info.phnum,
        AT_PAGESZ,
        STACK_PAGE,
        AT_ENTRY,
        info.entry,
        AT_RANDOM,
        random_at,
    ];
    let with_base = match info.base {
        Some(base) => first.push(AT_BASE).push(base),
        None => first,
    };
    with_base.push(0).push(0)
}

/// The number of words above the texts.
pub open spec fn word_count(args: int, envs: int, info: AuxInfo) -> int {
    1 + args + 1 + envs + 1 + if info.base is Some {
        16int
    } else {
        14int
    }
}

/// Where the bytes that look random are.
pub open spec fn random_place(top: int, args: Seq<Vec<u8>>, envs: Seq<Vec<u8>>) -> int {
    top - all_bytes(args) - all_bytes(envs) - 16
}

/// The stack pointer right below everything that was put on the stack.
pub open spec fn plain_sp(top: int, args: Seq<Vec<u8>>, envs: Seq<Vec<u8>>, info: AuxInfo) -> int {
    let random_at = random_place(top, args, envs);
    let aligned = random_at - random_at % 8;
    aligned - 8 * word_count(args.len() as int, envs.len() as int, info)
}

/// The stack pointer at a multiple of sixteen.
pub open spec fn start_sp(top: int, args: Seq<Vec<u8>>, envs: Seq<Vec<u8>>, info: AuxInfo) -> int {
    let below = plain_sp(top, args, envs, info);
    below - below % 16
}

/// The stack pointer that the program starts with, at a multiple of sixteen where that is
/// asked for.
pub open spec fn sp_of(
    top: int,
    args: Seq<Vec<u8>>,
    envs: Seq<Vec<u8>>,
    info: AuxInfo,
    even: bool,
) -> int {
    if even {
        start_sp(top, args, envs, info)
    } else {
        plain_sp(top, args, envs, info)
    }
}

/// The bytes that the stack takes below an address.
pub open spec fn stack_bytes(
    top: int,
    args: Seq<Vec<u8>>,
    envs: Seq<Vec<u8>>,
    info: AuxInfo,
    even: bool,
) -> int {
    top - sp_of(top, args, envs, info, even)
}

/// The words from the stack pointer on: the number of arguments, where they are, a zero,
/// where the settings are, a zero, and what is told of the image.
pub open spec fn stack_words(
    top: int,
    args: Seq<Vec<u8>>,
    envs: Seq<Vec<u8>>,
    info: AuxInfo,
) -> Seq<u64> {
    seq![args.len() as u64] + text_places(args, top) + seq![0u64] + text_places(
        envs,
        top - all_bytes(args),
    ) + seq![0u64] + aux_words(info, random_place(top, args, envs) as u64)
}

/// The stack of a program that starts.
pub struct StackImage {
    /// The stack pointer.
    pub sp: u64,
    /// Where the places of the arguments are.
    pub argv_base: u64,
    pub random_at: u64,
    pub arg_ptrs: Vec<u64>,
    pub env_ptrs: Vec<u64>,
    /// The words from the stack pointer on.
    pub words: Vec<u64>,
}

/// More texts take more bytes.
proof fn lemma_text_bytes(texts: Seq<Vec<u8>>, i: int, n: int)
    requires
        0 <= i <= n <= texts.len(),
    ensures
        0 <= text_bytes(texts, i) <= text_bytes(texts, n),
        n <= text_bytes(texts, n),
        i < n ==> text_bytes(texts, i) + texts[i]@.len() + 1 <= text_bytes(texts, n),
    decreases n,
{
    if n > 0 {
        lemma_text_bytes(
            texts,
            if i < n {
                i
            } else {
                n - 1
            },
            n - 1,
        );
        if i == n - 1 {
            lemma_text_bytes(texts, n - 1, n - 1);
        }
    }
}

/// Returns the bytes that texts take; none where that is too much to count.
pub fn count_bytes(texts: &Vec<Vec<u8>>) -> (bytes: Option<u64>)
    ensures
        match bytes {
            Some(n) => n == all_bytes(texts@),
            None => all_bytes(texts@) > u64::MAX,
        },
{
    let mut sum: u64 = 0;
    let mut i: usize = 0;
    while i < texts.len()
        invariant
            i <= texts@.len(),
            sum == text_bytes(texts@, i as int),
        decreases texts@.len() - i,
    {
        let len: usize = texts[i].len();
        proof {
            lemma_text_bytes(texts@, i as int, texts@.len() as int);
        }
        if len as u64 == u64::MAX {
            return None;
        }
        match sum.checked_add(len as u64 + 1) {
            None => {
                return None;
            },
            Some(more) => {
                sum = more;
            },
        }
        i = i + 1;
    }
    Some(sum)
}

/// Returns the bytes that the stack takes below an address; none where there are not so many.
pub fn stack_need(
    top: u64,
    args: &Vec<Vec<u8>>,
    envs: &Vec<Vec<u8>>,
    info: AuxInfo,
    even: bool,
) -> (bytes: Option<u64>)
    ensures
        match bytes {
            Some(n) => n == stack_bytes(top as int, args@, envs@, info, even) && n <= top,
            None => stack_bytes(top as int, args@, envs@, info, even) > top,
        },
{
    proof {
        lemma_text_bytes(args@, 0, args@.len() as int);
        lemma_text_bytes(envs@, 0, envs@.len() as int);
    }
    let a: u128 = match count_bytes(args) {
        None => {
            return None;
        },
        Some(n) => n as u128,
    };
    let b: u128 = match count_bytes(envs) {
        None => {
            return None;
        },
        Some(n) => n as u128,
    };
    let aux: u128 = if info.base.is_some() {
        16
    } else {
        14
    };
    let count: u128 = 3 + args.len() as u128 + envs.len() as u128 + aux;
    if a + b + 16 > top as u128 {
        return None;
    }
    let random_at: u128 = top as u128 - (a + b + 16);
    let aligned: u128 = random_at - random_at % 8;
    if 8 * count > aligned {
        return None;
    }
    let below: u128 = aligned - 8 * count;
    let sp: u128 = if even {
        below - below % 16
    } else {
        below
    };
    Some((top as u128 - sp) as u64)
}

/// Returns where texts go below an address.
fn place_texts(texts: &Vec<Vec<u8>>, top: u64) -> (places: (Vec<u64>, u64))
    requires
        all_bytes(texts@) <= top,
    ensures
        places.0@ == text_places(texts@, top as int),
        places.1 == top - all_bytes(texts@),
{
    let mut ptrs: Vec<u64> = Vec::new();
    let mut sp: u64 = top;
    let mut i: usize = 0;
    while i < texts.len()
        invariant
            i <= texts@.len(),
            all_bytes(texts@) <= top,
            sp == top - text_bytes(texts@, i as int),
            ptrs@ == text_places(texts@, top as int).take(i as int),
        decreases texts@.len() - i,
    {
        proof {
            lemma_text_bytes(texts@, i as int, texts@.len() as int);
            lemma_text_bytes(texts@, i + 1, texts@.len() as int);
        }
        let len: usize = texts[i].len();
        sp = sp - len as u64 - 1;
        ptrs.push(sp);
        i = i + 1;
        assert(ptrs@ =~= text_places(texts@, top as int).take(i as int));
    }
    assert(ptrs@ =~= text_places(texts@, top as int));
    (ptrs, sp)
}

/// Adds words to others.
fn push_all(words: &mut Vec<u64>, more: &Vec<u64>)
    ensures
        final(words)@ == old(words)@ + more@,
{
    let mut i: usize = 0;
    assert(words@ =~= old(words)@ + more@.take(0));
    while i < more.len()
        invariant
            i <= more@.len(),
            words@ == old(words)@ + more@.take(i as int),
        decreases more@.len() - i,
    {
        words.push(more[i]);
        i = i + 1;
        assert(words@ =~= old(words)@ + more@.take(i as int));
    }
    assert(more@.take(more@.len() as int) =~= more@);
}

/// Returns the pairs that tell of the image.
fn make_aux(info: AuxInfo, random_at: u64) -> (words: Vec<u64>)
    ensures
        words@ == aux_words(info, random_at),
{
    let mut words: Vec<u64> = Vec::new();
    words.push(AT_PHDR);
    words.push(info.phdr);
    words.push(AT_PHENT);
    words.push(info.phent);
    words.push(AT_PHNUM);
    words.push(info.phnum);
    words.push(AT_PAGESZ);
    words.push(STACK_PAGE);
    words.push(AT_ENTRY);
    words.push(info.entry);
    words.push(AT_RANDOM);
    words.push(random_at);
    if let Some(base) = info.base {
        words.push(AT_BASE);
        words.push(base);
    }
    words.push(0);
    words.push(0);
    assert(words@ =~= aux_words(info, random_at));
    words
}

/// Lays the stack of a program out below an address; the stack pointer is at a multiple of
/// sixteen where that is asked for.
pub fn build_stack(
    top: u64,
    args: &Vec<Vec<u8>>,
    envs: &Vec<Vec<u8>>,
    info: AuxInfo,
    even: bool,
) -> (image: StackImage)
    requires
        stack_bytes(top as int, args@, envs@, info, even) <= top,
    ensures
        image.sp == sp_of(top as int, args@, envs@, info, even),
        image.random_at + 16 <= top,
        image.argv_base == image.sp + 8,
        image.random_at == random_place(top as int, args@, envs@),
        image.arg_ptrs@ == text_places(args@, top as int),
        image.env_ptrs@ == text_places(envs@, top - all_bytes(args@)),
        image.words@ == stack_words(top as int, args@, envs@, info),
        image.words@.len() == word_count(args@.len() as int, envs@.len() as int, info),
        image.sp + 8 * image.words@.len() <= image.random_at,
{
    proof {
        lemma_text_bytes(args@, 0, args@.len() as int);
        lemma_text_bytes(envs@, 0, envs@.len() as int);
    }
    let (arg_ptrs, below_args) = place_texts(args, top);
    let (env_ptrs, below_envs) = place_texts(envs, below_args);
    let random_at: u64 = below_envs - 16;
    let aligned: u64 = random_at - random_at % 8;
    let aux = make_aux(info, random_at);
    let mut words: Vec<u64> = Vec::new();
    let argc: usize = args.len();
    words.push(argc as u64);
    push_all(&mut words, &arg_ptrs);
    words.push(0);
    push_all(&mut words, &env_ptrs);
    words.push(0);
    push_all(&mut words, &aux);
    assert(words@ =~= stack_words(top as int, args@, envs@, info));
    let count: u64 = words.len() as u64;
    let below: u64 = aligned - 8 * count;
    let sp: u64 = if even {
        below - below % 16
    } else {
        below
    };
    StackImage { sp, argv_base: sp + 8, random_at, arg_ptrs, env_ptrs, words }
}

/// The byte that stands for random ones.
pub const RANDOM_FILL: u8 = 0x23;

/// Bytes that are put at an address.
pub struct Placed {
    pub at: u64,
    pub bytes: Vec<u8>,
}

/// What is put where.
pub open spec fn placed_view(s: Seq<Placed>) -> Seq<(u64, Seq<u8>)> {
    s.map_values(|p: Placed| (p.at, p.bytes@))
}

/// The texts at their places, each with a zero behind it.
pub open spec fn placed_texts(texts: Seq<Vec<u8>>, places: Seq<u64>) -> Seq<(u64, Seq<u8>)> {
    Seq::new(texts.len(), |i: int| (places[i], texts[i]@.push(0u8)))
}

/// What is put on the stack above the words: the arguments, the settings and the bytes that
/// look random.
pub open spec fn stack_texts(
    stack: StackImage,
    args: Seq<Vec<u8>>,
    envs: Seq<Vec<u8>>,
) -> Seq<(u64, Seq<u8>)> {
    placed_texts(args, stack.arg_ptrs@) + placed_texts(envs, stack.env_ptrs@) + seq![
        (stack.random_at, Seq::new(16, |i: int| RANDOM_FILL)),
    ]
}

/// Adds texts at their places.
fn push_texts(all: &mut Vec<Placed>, texts: &Vec<Vec<u8>>, places: &Vec<u64>)
    requires
        places@.len() == texts@.len(),
    ensures
        placed_view(final(all)@) == placed_view(old(all)@) + placed_texts(texts@, places@),
{
    let ghost had = placed_view(all@);
    let ghost more = placed_texts(texts@, places@);
    let mut i: usize = 0;
    assert(had =~= had + more.take(0));
    while i < texts.len()
        invariant
            i <= texts@.len(),
            places@.len() == texts@.len(),
            more == placed_texts(texts@, places@),
            placed_view(all@) == had + more.take(i as int),
        decreases texts@.len() - i,
    {
        let mut bytes: Vec<u8> = Vec::new();
        let mut k: usize = 0;
        while k < texts[i].len()
            invariant
                i < texts@.len(),
                k <= texts@[i as int]@.len(),
                bytes@ == texts@[i as int]@.take(k as int),
            decreases texts@[i as int]@.len() - k,
        {
            bytes.push(texts[i][k]);
            k = k + 1;
            assert(bytes@ =~= texts@[i as int]@.take(k as int));
        }
        bytes.push(0);
        assert(bytes@ =~= texts@[i as int]@.push(0u8));
        let ghost before = all@;
        let placed = Placed { at: places[i], bytes };
        all.push(placed);
        proof {
            assert(placed_view(all@) =~= placed_view(before).push((placed.at, placed.bytes@)));
            assert(more.take(i + 1) =~= more.take(i as int).push(more[i as int]));
            assert(placed_view(all@) =~= had + more.take(i + 1));
        }
        i = i + 1;
    }
    assert(more.take(more.len() as int) =~= more);
}

/// Lists what is put on the stack above the words.
pub fn list_texts(stack: &StackImage, args: &Vec<Vec<u8>>, envs: &Vec<Vec<u8>>) -> (all: Vec<
    Placed,
>)
    requires
        stack.arg_ptrs@.len() == args@.len(),
        stack.env_ptrs@.len() == envs@.len(),
    ensures
        placed_view(all@) == stack_texts(*stack, args@, envs@),
{
    let mut all: Vec<Placed> = Vec::new();
    assert(placed_view(all@) =~= Seq::<(u64, Seq<u8>)>::empty());
    push_texts(&mut all, args, &stack.arg_ptrs);
    push_texts(&mut all, envs, &stack.env_ptrs);
    let mut bytes: Vec<u8> = Vec::new();
    let mut i: usize = 0;
    while i < 16
        invariant
            i <= 16,
            bytes@ == Seq::new(i as nat, |k: int| RANDOM_FILL),
        decreases 16 - i,
    {
        bytes.push(RANDOM_FILL);
        i = i + 1;
        assert(bytes@ =~= Seq::new(i as nat, |k: int| RANDOM_FILL));
    }
    let ghost before = all@;
    let placed = Placed { at: stack.random_at, bytes };
    all.push(placed);
    proof {
        assert(placed_view(all@) =~= placed_view(before).push((placed.at, placed.bytes@)));
        assert(placed_view(all@) =~= stack_texts(*stack, args@, envs@));
    }
    all
}

/// The stack pointer of a program that starts is a multiple of sixteen,
/// and everything that was put on the stack is between it and the top.
pub proof fn law_stack_is_aligned(
    top: int,
    args: Seq<Vec<u8>>,
    envs: Seq<Vec<u8>>,
    info: AuxInfo,
)
    requires
        stack_bytes(top, args, envs, info, true) <= top,
    ensures
        start_sp(top, args, envs, info) % 16 == 0,
        0 <= start_sp(top, args, envs, info),
        start_sp(top, args, envs, info) + 8 * word_count(
            args.len() as int,
            envs.len() as int,
            info,
        ) <= random_place(top, args, envs),
        random_place(top, args, envs) + 16 <= top,
{
    lemma_text_bytes(args, 0, args.len() as int);
    lemma_text_bytes(envs, 0, envs.len() as int);
}

/// The texts on the stack do not overlap: each one with its zero ends where the one before
/// begins, or below.
pub proof fn law_texts_apart(texts: Seq<Vec<u8>>, top: int, i: int, j: int)
    requires
        0 <= i < j < texts.len(),
        all_bytes(texts) <= top <= u64::MAX,
    ensures
        text_places(texts, top)[j] + texts[j]@.len() + 1 <= text_places(texts, top)[i],
        text_places(texts, top)[i] + texts[i]@.len() + 1 <= top,
{
    lemma_text_bytes(texts, i + 1, j);
    lemma_text_bytes(texts, i, texts.len() as int);
    lemma_text_bytes(texts, i + 1, texts.len() as int);
    lemma_text_bytes(texts, j, texts.len() as int);
    lemma_text_bytes(texts, j + 1, texts.len() as int);
}

} // verus!
