use vstd::prelude::*;

verus! {

/// The side of the noise lattice's hash tables.
pub const LATTICE_SIZE: usize = 256;

/// `p` is a permutation of `0..n`.
pub open spec fn is_permutation(p: Seq<u32>, n: nat) -> bool {
    &&& p.len() == n
    &&& p.no_duplicates()
    &&& forall|k: int| 0 <= k < p.len() ==> #[trigger] p[k] < n
}

/// Where the lattice coordinate `c` falls in a table of 256 entries: its low
/// eight bits.
pub open spec fn wrap_coord(c: i32) -> int {
    (c as u32) as int % 256
}

/// Relies on rand::random_range: a value drawn from the inclusive range
/// `0..=hi`, which is never empty.
#[verifier::external_body]
fn random_index_upto(hi: usize) -> (r: usize)
    ensures
        r <= hi,
{
    rand::random_range(0..=hi)
}

/// `p` with the entries at `i` and `j` exchanged.
pub open spec fn swapped(p: Seq<u32>, i: int, j: int) -> Seq<u32> {
    p.update(i, p[j]).update(j, p[i])
}

/// `p` after the steps of a Fisher-Yates shuffle from position `i` down to
/// position 1, step `k` exchanging entries `k` and `d[k]`.
pub open spec fn shuffle_steps(p: Seq<u32>, d: Seq<usize>, i: int) -> Seq<u32>
    decreases i,
{
    if i <= 0 {
        p
    } else {
        shuffle_steps(swapped(p, i, d[i] as int), d, i - 1)
    }
}

/// The table `0, 1, ..., 255`.
pub open spec fn identity_table() -> Seq<u32> {
    Seq::new(LATTICE_SIZE as nat, |k: int| k as u32)
}

/// The identity table shuffled with the draws `d`: position `i`, from the last
/// down to 1, is exchanged with position `d[i]`.
pub open spec fn shuffled(d: Seq<usize>) -> Seq<u32> {
    shuffle_steps(identity_table(), d, LATTICE_SIZE - 1)
}

/// Draws a shuffle may take: one per position, each at or before its position.
pub open spec fn valid_draws(d: Seq<usize>) -> bool {
    d.len() == LATTICE_SIZE && forall|i: int| 1 <= i < LATTICE_SIZE ==> #[trigger] d[i] <= i
}

/// Shuffles the identity table with the given draws.
pub fn shuffle(draws: &Vec<usize>) -> (r: Vec<u32>)
    requires
        valid_draws(draws@),
    ensures
        r@ == shuffled(draws@),
        is_permutation(r@, LATTICE_SIZE as nat),
{
    let mut p: Vec<u32> = Vec::new();
    let mut k: u32 = 0;
    while k < 256
        invariant
            k <= 256,
            p@ == Seq::new(k as nat, |i: int| i as u32),
        decreases 256 - k,
    {
        p.push(k);
        k = k + 1;
    }
    assert(p@ =~= identity_table());
    let mut i: usize = LATTICE_SIZE - 1;
    while i > 0
        invariant
            i < LATTICE_SIZE,
            valid_draws(draws@),
            is_permutation(p@, LATTICE_SIZE as nat),
            shuffle_steps(p@, draws@, i as int) == shuffled(draws@),
        decreases i,
    {
        let j = draws[i];
        let a = p[i];
        let b = p[j];
        let ghost before = p@;
        p.set(i, b);
        p.set(j, a);
        proof {
            lemma_swap_keeps_permutation(before, i as int, j as int);
            assert(p@ == swapped(before, i as int, j as int));
        }
        i = i - 1;
    }
    p
}

/// A random permutation of `0..256`: the identity table shuffled with draws
/// taken at random, as Fisher and Yates do.
pub fn generate_perm() -> (r: Vec<u32>)
    ensures
        exists|d: Seq<usize>| valid_draws(d) && r@ == #[trigger] shuffled(d),
        is_permutation(r@, LATTICE_SIZE as nat),
{
    let mut draws: Vec<usize> = Vec::new();
    let mut k: usize = 0;
    while k < LATTICE_SIZE
        invariant
            k <= LATTICE_SIZE,
            draws@.len() == k,
            forall|i: int| 0 <= i < k ==> #[trigger] draws@[i] == 0,
        decreases LATTICE_SIZE - k,
    {
        draws.push(0);
        k = k + 1;
    }
    let mut i: usize = LATTICE_SIZE - 1;
    while i > 0
        invariant
            i < LATTICE_SIZE,
            draws@.len() == LATTICE_SIZE,
            forall|m: int| 1 <= m < LATTICE_SIZE ==> #[trigger] draws@[m] <= m,
        decreases i,
    {
        let j = random_index_upto(i);
        draws.set(i, j);
        i = i - 1;
    }
    let r = shuffle(&draws);
    assert(valid_draws(draws@) && r@ == shuffled(draws@));
    r
}

proof fn lemma_swap_keeps_permutation(s: Seq<u32>, i: int, j: int)
    requires
        is_permutation(s, LATTICE_SIZE as nat),
        0 <= i < s.len(),
        0 <= j < s.len(),
    ensures
        is_permutation(s.update(i, s[j]).update(j, s[i]), LATTICE_SIZE as nat),
{
    let t = s.update(i, s[j]).update(j, s[i]);
    assert forall|a: int, b: int| 0 <= a < t.len() && 0 <= b < t.len() && a != b implies t[a] != t[b] by {
        let sa = if a == j { i } else if a == i { j } else { a };
        let sb = if b == j { i } else if b == i { j } else { b };
        assert(t[a] == s[sa]);
        assert(t[b] == s[sb]);
    }
}

/// Whether `p` is a permutation of `0..256`.
pub fn is_permutation_table(p: &Vec<u32>) -> (r: bool)
    ensures
        r == is_permutation(p@, LATTICE_SIZE as nat),
{
    if p.len() != LATTICE_SIZE {
        return false;
    }
    let mut seen: Vec<bool> = Vec::new();
    let mut k: usize = 0;
    while k < LATTICE_SIZE
        invariant
            k <= LATTICE_SIZE,
            seen@.len() == k,
            forall|v: int| 0 <= v < k ==> !#[trigger] seen@[v],
        decreases LATTICE_SIZE - k,
    {
        seen.push(false);
        k = k + 1;
    }
    let mut i: usize = 0;
    while i < LATTICE_SIZE
        invariant
            i <= LATTICE_SIZE,
            p@.len() == LATTICE_SIZE,
            seen@.len() == LATTICE_SIZE,
            forall|a: int| 0 <= a < i ==> #[trigger] p@[a] < LATTICE_SIZE,
            forall|a: int, b: int| 0 <= a < b < i ==> #[trigger] p@[a] != #[trigger] p@[b],
            forall|v: int| 0 <= v < LATTICE_SIZE ==> (#[trigger] seen@[v] <==> exists|a: int| 0 <= a < i && p@[a] == v),
        decreases LATTICE_SIZE - i,
    {
        let v = p[i];
        if v >= 256 {
            return false;
        }
        if seen[v as usize] {
            proof {
                let a = choose|a: int| 0 <= a < i && p@[a] == v;
                assert(p@[a] == p@[i as int]);
            }
            return false;
        }
        seen.set(v as usize, true);
        proof {
            assert forall|w: int| 0 <= w < LATTICE_SIZE implies (#[trigger] seen@[w] <==> exists|a: int| 0 <= a < i + 1 && p@[a] == w) by {
                if w == v {
                    assert(p@[i as int] == w);
                } else if seen@[w] {
                    let a = choose|a: int| 0 <= a < i && p@[a] == w;
                    assert(0 <= a < i + 1 && p@[a] == w);
                }
            }
            assert forall|a: int, b: int| 0 <= a < b < i + 1 implies #[trigger] p@[a] != #[trigger] p@[b] by {
                if b == i {
                    if p@[a] == p@[b] {
                        assert(exists|c: int| 0 <= c < i && p@[c] == v);
                    }
                }
            }
        }
        i = i + 1;
    }
    true
}

/// The permutation tables that hash a lattice point of Perlin noise to one
/// of 256 gradient vectors.
pub struct LatticeHash {
    pub perm_x: Vec<u32>,
    pub perm_y: Vec<u32>,
    pub perm_z: Vec<u32>,
}

impl LatticeHash {
    /// Each table is a permutation of `0..256`.
    pub open spec fn wf(&self) -> bool {
        &&& is_permutation(self.perm_x@, LATTICE_SIZE as nat)
        &&& is_permutation(self.perm_y@, LATTICE_SIZE as nat)
        &&& is_permutation(self.perm_z@, LATTICE_SIZE as nat)
    }

    /// The hash of lattice point `(x, y, z)`.
    pub open spec fn spec_index(&self, x: i32, y: i32, z: i32) -> u32 {
        self.perm_x@[wrap_coord(x)] ^ self.perm_y@[wrap_coord(y)] ^ self.perm_z@[wrap_coord(z)]
    }

    /// Whether each table is a permutation of `0..256`.
    pub fn is_valid(&self) -> (r: bool)
        ensures
            r == self.wf(),
    {
        is_permutation_table(&self.perm_x) && is_permutation_table(&self.perm_y) && is_permutation_table(&self.perm_z)
    }

    /// Three freshly shuffled tables.
    pub fn new() -> (r: Self)
        ensures
            r.wf(),
    {
        LatticeHash { perm_x: generate_perm(), perm_y: generate_perm(), perm_z: generate_perm() }
    }

    /// The gradient slot of lattice point `(x, y, z)`: the entries of the
    /// three tables at the coordinates' low eight bits, combined by `^`.
    pub fn index(&self, x: i32, y: i32, z: i32) -> (r: usize)
        requires
            self.wf(),
        ensures
            r == self.spec_index(x, y, z),
            r < LATTICE_SIZE,
    {
        let ix = ((x as u32) & 255) as usize;
        let iy = ((y as u32) & 255) as usize;
        let iz = ((z as u32) & 255) as usize;
        proof {
            let (ux, uy, uz) = (x as u32, y as u32, z as u32);
            assert(ux & 255 == ux % 256) by (bit_vector);
            assert(uy & 255 == uy % 256) by (bit_vector);
            assert(uz & 255 == uz % 256) by (bit_vector);
        }
        let a = self.perm_x[ix];
        let b = self.perm_y[iy];
        let c = self.perm_z[iz];
        assert(a < 256 && b < 256 && c < 256 ==> a ^ b ^ c < 256) by (bit_vector);
        (a ^ b ^ c) as usize
    }
}

} // verus!
