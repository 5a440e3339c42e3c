use vstd::prelude::*;

verus! {

/// Number of bytes in one window.
pub const WINDOW: usize = 7;

/// Base of the polynomial.
pub const BASE: u64 = 255;

/// Modulus of the polynomial.
pub const MODULUS: u64 = 801385653117583579;

/// `BASE` raised to `WINDOW`.
pub const BASE_POW_WINDOW: u64 = 70110209207109375;

/// `b` raised to `e`.
pub open spec fn pow_nat(b: nat, e: nat) -> nat
    decreases e,
{
    if e == 0 {
        1
    } else {
        b * pow_nat(b, (e - 1) as nat)
    }
}

/// The polynomial value of a byte sequence, oldest byte first:
/// `sum of s[i] * BASE^(len - 1 - i)`, written in Horner form.
pub open spec fn poly(s: Seq<u8>) -> nat
    decreases s.len(),
{
    if s.len() == 0 {
        0
    } else {
        poly(s.drop_last()) * 255 + s.last() as nat
    }
}

/// The digest of one window of bytes.
pub open spec fn window_digest(w: Seq<u8>) -> u64 {
    (poly(w) % (MODULUS as nat)) as u64
}

/// The bytes of a file shorter than a window, right-padded with zeros.
pub open spec fn padded(d: Seq<u8>) -> Seq<u8> {
    d + Seq::new((WINDOW - d.len()) as nat, |i: int| 0u8)
}

/// The number of chunks that a file of `len` bytes yields.
pub open spec fn chunk_count(len: nat) -> nat {
    if len < WINDOW {
        1
    } else {
        (len - WINDOW + 1) as nat
    }
}

/// The digest of the chunk at `position` of the file `d`, by the direct formula.
pub open spec fn digest_at(d: Seq<u8>, position: int) -> u64 {
    if d.len() < WINDOW {
        window_digest(padded(d))
    } else {
        window_digest(d.subrange(position, position + WINDOW))
    }
}

/// The chunk digests of the file `d`, one for each window position.
pub open spec fn file_digests(d: Seq<u8>) -> Seq<u64> {
    Seq::new(chunk_count(d.len()), |i: int| digest_at(d, i))
}

proof fn lemma_pow_monotone(b: nat, e1: nat, e2: nat)
    requires
        b >= 1,
        e1 <= e2,
    ensures
        pow_nat(b, e1) <= pow_nat(b, e2),
    decreases e2,
{
    if e1 < e2 {
        lemma_pow_monotone(b, e1, (e2 - 1) as nat);
        assert(pow_nat(b, (e2 - 1) as nat) <= b * pow_nat(b, (e2 - 1) as nat)) by (nonlinear_arith)
            requires
                b >= 1,
        ;
    }
}

proof fn lemma_pow_window()
    ensures
        pow_nat(256, WINDOW as nat) == 72057594037927936,
        pow_nat(255, WINDOW as nat) == BASE_POW_WINDOW as nat,
        pow_nat(255, (WINDOW - 1) as nat) == 274941996890625,
{
    reveal_with_fuel(pow_nat, 8);
}

/// A polynomial over `n` bytes stays below `256^n`.
proof fn lemma_poly_bound(s: Seq<u8>)
    ensures
        poly(s) < pow_nat(256, s.len()),
    decreases s.len(),
{
    if s.len() > 0 {
        let p = s.drop_last();
        lemma_poly_bound(p);
        let a = poly(p);
        let q = pow_nat(256, p.len());
        let l = s.last() as nat;
        assert(a * 255 + l < 256 * q) by (nonlinear_arith)
            requires
                a < q,
                l <= 255,
        ;
    }
}

/// Splitting off the oldest byte of a non-empty sequence.
proof fn lemma_poly_front(s: Seq<u8>)
    requires
        s.len() >= 1,
    ensures
        poly(s) == s[0] as nat * pow_nat(255, (s.len() - 1) as nat) + poly(s.drop_first()),
    decreases s.len(),
{
    if s.len() == 1 {
        assert(s.drop_last().len() == 0);
        assert(s.drop_first().len() == 0);
        assert(poly(s.drop_last()) == 0);
        assert(poly(s.drop_first()) == 0);
        assert(pow_nat(255, 0) == 1);
        assert(s.last() == s[0]);
        assert(poly(s) == poly(s.drop_last()) * 255 + s.last() as nat);
        assert(poly(s) == s[0] as nat);
    } else {
        let p = s.drop_last();
        lemma_poly_front(p);
        assert(s.drop_first().drop_last() =~= p.drop_first());
        assert(s.drop_first().last() == s.last());
        assert(p[0] == s[0]);
        assert(poly(s) == poly(p) * 255 + s.last() as nat);
        assert(poly(s.drop_first()) == poly(p.drop_first()) * 255 + s.last() as nat);
        let a = s[0] as nat;
        let e = pow_nat(255, (p.len() - 1) as nat);
        let r = poly(p.drop_first());
        assert(pow_nat(255, (s.len() - 1) as nat) == 255 * e);
        assert((a * e + r) * 255 == a * (255 * e) + r * 255) by (nonlinear_arith);
        assert(poly(p) == a * e + r);
        assert(poly(s) == a * (255 * e) + poly(s.drop_first()));
    }
}

/// The rolling update: dropping the oldest byte of a window and appending
/// a new one, expressed over the polynomial value of the old window.
pub proof fn lemma_rolling_update(w: Seq<u8>, b: u8)
    requires
        w.len() == WINDOW,
    ensures
        poly(w.drop_first().push(b)) + w[0] as nat * (BASE_POW_WINDOW as nat) == 255 * poly(w)
            + b as nat,
        poly(w) < (MODULUS as nat),
        window_digest(w) as nat == poly(w),
{
    let n = w.drop_first().push(b);
    assert(n.drop_last() =~= w.drop_first());
    lemma_poly_front(w);
    lemma_pow_window();
    lemma_poly_bound(w);
    let a = w[0] as nat;
    let r = poly(w.drop_first());
    assert(255 * (a * 274941996890625 + r) == a * 70110209207109375 + 255 * r) by (nonlinear_arith);
}

/// The rolling digest agrees with the direct formula: computing the digest of
/// the next window from the digest of the current one, by
/// `(BASE * h - dropped * BASE^WINDOW + added) mod MODULUS`, gives the digest
/// of the next window.
pub proof fn lemma_rolling_consistency(w: Seq<u8>, b: u8)
    requires
        w.len() == WINDOW,
    ensures
        ((255 * (window_digest(w) as nat) - w[0] as nat * (BASE_POW_WINDOW as nat) + b as nat)
            % (MODULUS as int)) as u64 == window_digest(w.drop_first().push(b)),
{
    lemma_rolling_update(w, b);
}

proof fn lemma_poly_zeros(s: Seq<u8>)
    requires
        forall|i: int| 0 <= i < s.len() ==> s[i] == 0,
    ensures
        poly(s) == 0,
    decreases s.len(),
{
    if s.len() > 0 {
        lemma_poly_zeros(s.drop_last());
    }
}

/// A file of zero bytes, at least a window long, yields one chunk for each
/// window position, each with digest 0.
pub proof fn lemma_zero_file(d: Seq<u8>)
    requires
        d.len() >= WINDOW,
        forall|i: int| 0 <= i < d.len() ==> d[i] == 0,
    ensures
        file_digests(d) == Seq::new((d.len() - WINDOW + 1) as nat, |i: int| 0u64),
{
    assert forall|i: int| 0 <= i < d.len() - WINDOW + 1 implies #[trigger] digest_at(d, i) == 0 by {
        lemma_poly_zeros(d.subrange(i, i + WINDOW));
    }
    assert(file_digests(d) =~= Seq::new((d.len() - WINDOW + 1) as nat, |i: int| 0u64));
}

/// The empty file yields exactly one chunk, with digest 0.
pub proof fn lemma_empty_file()
    ensures
        file_digests(Seq::<u8>::empty()) == seq![0u64],
{
    lemma_poly_zeros(padded(Seq::<u8>::empty()));
    assert(file_digests(Seq::<u8>::empty()) =~= seq![0u64]);
}

/// Hashing the same bytes twice gives the same chunk sequence.
pub proof fn lemma_digests_deterministic(a: Seq<u8>, b: Seq<u8>)
    requires
        a == b,
    ensures
        file_digests(a) == file_digests(b),
{
}

/// One chunk: its position in the file and its digest.
#[derive(Clone, Copy, Debug)]
pub struct Chunk {
    pub number: usize,
    pub digest: u64,
}

/// The current window of the rolling hasher.
#[derive(Debug)]
pub struct ChunkContent {
    current_number: usize,
    content: Vec<u8>,
    max_a: u64,
}

impl View for ChunkContent {
    /// The position of the current window and its bytes.
    type V = (nat, Seq<u8>);

    closed spec fn view(&self) -> (nat, Seq<u8>) {
        (self.current_number as nat, self.content@)
    }
}

impl ChunkContent {
    /// The window holds `WINDOW` bytes.
    pub closed spec fn wf(&self) -> bool {
        &&& self.content@.len() == WINDOW
        &&& self.max_a == BASE_POW_WINDOW
    }

    pub fn new() -> (r: ChunkContent)
        ensures
            r.wf(),
            r@.0 == 0,
            r@.1 == Seq::new(WINDOW as nat, |i: int| 0u8),
    {
        let mut content: Vec<u8> = Vec::new();
        let mut i: usize = 0;
        while i < WINDOW
            invariant
                i <= WINDOW,
                content@ == Seq::new(i as nat, |j: int| 0u8),
            decreases WINDOW - i,
        {
            content.push(0u8);
            i = i + 1;
        }
        assert(content@ =~= Seq::new(WINDOW as nat, |j: int| 0u8));
        ChunkContent { current_number: 0, content, max_a: BASE_POW_WINDOW }
    }

    /// Fills the window with the first bytes of a file and returns the
    /// chunk at the current position.
    pub fn setup(&mut self, v: &[u8]) -> (r: Chunk)
        requires
            old(self).wf(),
            v@.len() == WINDOW,
        ensures
            final(self).wf(),
            final(self)@ == (old(self)@.0, v@),
            r.number as nat == old(self)@.0,
            r.digest == window_digest(v@),
    {
        let mut i: usize = 0;
        while i < WINDOW
            invariant
                i <= WINDOW,
                v@.len() == WINDOW,
                self.content@.len() == WINDOW,
                self.max_a == BASE_POW_WINDOW,
                self.current_number == old(self).current_number,
                forall|j: int| 0 <= j < i ==> self.content@[j] == v@[j],
            decreases WINDOW - i,
        {
            self.content.set(i, v[i]);
            i = i + 1;
        }
        assert(self.content@ =~= v@);
        Chunk { number: self.current_number, digest: self.compute_digest() }
    }

    /// Slides the window one byte to the right, given the digest of the
    /// current window, and returns the chunk at the new position.
    pub fn update(&mut self, previous: u64, new_byte: u8) -> (r: Chunk)
        requires
            old(self).wf(),
            previous == window_digest(old(self)@.1),
            old(self)@.0 < usize::MAX,
        ensures
            final(self).wf(),
            final(self)@ == (old(self)@.0 + 1, old(self)@.1.drop_first().push(new_byte)),
            r.number as nat == final(self)@.0,
            r.digest == window_digest(final(self)@.1),
    {
        let first_byte = self.content[0];
        let new_digest = self.rehash_digest(previous, first_byte, new_byte);
        let ghost before = self.content@;
        let mut i: usize = 1;
        while i < WINDOW
            invariant
                1 <= i <= WINDOW,
                before.len() == WINDOW,
                self.content@.len() == WINDOW,
                self.max_a == BASE_POW_WINDOW,
                self.current_number == old(self).current_number,
                forall|j: int| 0 <= j < i - 1 ==> self.content@[j] == before[j + 1],
                forall|j: int| i - 1 <= j < WINDOW ==> self.content@[j] == before[j],
            decreases WINDOW - i,
        {
            let b = self.content[i];
            self.content.set(i - 1, b);
            i = i + 1;
        }
        self.content.set(WINDOW - 1, new_byte);
        assert(self.content@ =~= before.drop_first().push(new_byte));
        self.current_number = self.current_number + 1;
        Chunk { number: self.current_number, digest: new_digest }
    }

    /// The digest of the window that follows the current one when
    /// `new_byte` is appended, computed from the current digest.
    fn rehash_digest(&self, digest: u64, old_byte: u8, new_byte: u8) -> (r: u64)
        requires
            self.wf(),
            digest == window_digest(self@.1),
            old_byte == self@.1[0],
        ensures
            r == window_digest(self@.1.drop_first().push(new_byte)),
    {
        proof {
            lemma_rolling_update(self@.1, new_byte);
            lemma_poly_bound(self@.1);
            lemma_pow_window();
            lemma_poly_bound(self@.1.drop_first().push(new_byte));
        }
        let b_i = old_byte as u64;
        let b_k = new_byte as u64;
        assert(b_i as nat * (BASE_POW_WINDOW as nat) <= 255 * (BASE_POW_WINDOW as nat))
            by (nonlinear_arith)
            requires
                b_i <= 255,
        ;
        let shifted = BASE * digest;
        (shifted - b_i * self.max_a + b_k) % MODULUS
    }

    /// The digest of the current window by the direct formula.
    fn compute_digest(&self) -> (r: u64)
        requires
            self.wf(),
        ensures
            r == window_digest(self@.1),
    {
        let mut h: u64 = 0;
        let mut i: usize = 0;
        proof {
            lemma_pow_window();
        }
        while i < WINDOW
            invariant
                i <= WINDOW,
                self.content@.len() == WINDOW,
                h as nat == poly(self.content@.subrange(0, i as int)),
                pow_nat(256, WINDOW as nat) == 72057594037927936,
            decreases WINDOW - i,
        {
            let ghost s = self.content@.subrange(0, i as int + 1);
            proof {
                assert(s.drop_last() =~= self.content@.subrange(0, i as int));
                lemma_poly_bound(s);
                lemma_pow_monotone(256, (i + 1) as nat, WINDOW as nat);
            }
            h = h * BASE + self.content[i] as u64;
            i = i + 1;
        }
        assert(self.content@.subrange(0, WINDOW as int) =~= self.content@);
        proof {
            lemma_poly_bound(self.content@);
        }
        h % MODULUS
    }
}

/// The chunks of a file's bytes, in file order.
///
/// A file of at least `WINDOW` bytes yields one chunk for every window
/// position; a shorter one, the empty file included, yields one chunk over
/// its bytes padded with zeros.
pub fn chunk_sequence(data: &[u8]) -> (r: Vec<Chunk>)
    ensures
        r@.len() == chunk_count(data@.len()),
        forall|i: int|
            0 <= i < r@.len() ==> (#[trigger] r@[i]).number == i && r@[i].digest == digest_at(
                data@,
                i,
            ),
{
    let mut content = ChunkContent::new();
    let mut first: Vec<u8> = Vec::new();
    let mut i: usize = 0;
    while i < WINDOW
        invariant
            i <= WINDOW,
            first@.len() == i,
            forall|j: int| 0 <= j < i ==> #[trigger] first@[j] == if j < data@.len() {
                data@[j]
            } else {
                0u8
            },
        decreases WINDOW - i,
    {
        if i < data.len() {
            first.push(data[i]);
        } else {
            first.push(0u8);
        }
        i = i + 1;
    }
    let c0 = content.setup(first.as_slice());
    let mut result: Vec<Chunk> = Vec::new();
    result.push(c0);
    if data.len() < WINDOW {
        assert(first@ =~= padded(data@));
        return result;
    }
    assert(first@ =~= data@.subrange(0, WINDOW as int));
    let mut previous = c0.digest;
    let mut pos: usize = WINDOW;
    while pos < data.len()
        invariant
            WINDOW <= pos <= data@.len(),
            content.wf(),
            content@.0 == pos - WINDOW,
            content@.1 == data@.subrange(pos - WINDOW, pos as int),
            previous == window_digest(content@.1),
            result@.len() == pos - WINDOW + 1,
            forall|j: int|
                0 <= j < result@.len() ==> (#[trigger] result@[j]).number == j
                    && result@[j].digest == digest_at(data@, j),
        decreases data@.len() - pos,
    {
        let c = content.update(previous, data[pos]);
        assert(data@.subrange(pos - WINDOW, pos as int).drop_first().push(data@[pos as int])
            =~= data@.subrange(pos - WINDOW + 1, pos + 1));
        result.push(c);
        previous = c.digest;
        pos = pos + 1;
    }
    result
}

/// The chunk digests of a file's bytes, in file order.
pub fn bytes_to_chunks(data: &[u8]) -> (r: Vec<u64>)
    ensures
        r@ == file_digests(data@),
{
    let chunks = chunk_sequence(data);
    let mut r: Vec<u64> = Vec::new();
    let mut i: usize = 0;
    while i < chunks.len()
        invariant
            i <= chunks@.len(),
            chunks@.len() == chunk_count(data@.len()),
            forall|j: int|
                0 <= j < chunks@.len() ==> (#[trigger] chunks@[j]).digest == digest_at(data@, j),
            r@ =~= file_digests(data@).subrange(0, i as int),
        decreases chunks@.len() - i,
    {
        r.push(chunks[i].digest);
        i = i + 1;
    }
    assert(file_digests(data@).subrange(0, i as int) =~= file_digests(data@));
    r
}

} // verus!
