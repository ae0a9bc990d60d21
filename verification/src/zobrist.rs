//! Zobrist keys: one pseudo-random constant per edge of a board, drawn from a
//! generator that is seeded by the board's dimensions and a salt.

use rand::distributions::Standard;
use rand::rngs::StdRng;
use rand::{Rng, SeedableRng};
use crate::board::{Move, Side};
use vstd::prelude::*;

verus! {

/// The first `count` 64-bit values handed out by the standard generator of
/// the `rand` crate after it was seeded with the 32 bytes of `seed`.
pub uninterp spec fn seeded_values(seed: Seq<u8>, count: nat) -> Seq<u64>;

/// Seeds `rand::rngs::StdRng` with `SeedableRng::from_seed` and collects the
/// first `count` samples of `Rng::sample_iter` over the `Standard`
/// distribution, which are the values that repeated calls of `Rng::gen` would
/// give. The generator is deterministic, so the result is a function of the
/// seed and the count; the iterator never ends, so exactly `count` values
/// come back. Nothing else is claimed of the values.
#[verifier::external_body]
fn draw_values(seed: [u8; 32], count: usize) -> (out: Vec<u64>)
    ensures
        out@ == seeded_values(seed@, count as nat),
        out@.len() == count,
{
    let rng: StdRng = SeedableRng::from_seed(seed);
    rng.sample_iter(Standard).take(count).collect()
}

/// The seed for a board: width, height and salt, each reduced to a byte, in
/// the first three places, zeros elsewhere.
pub open spec fn zobrist_seed(width: nat, height: nat, salt: nat) -> Seq<u8> {
    Seq::new(
        32,
        |i: int|
            if i == 0 {
                (width % 256) as u8
            } else if i == 1 {
                (height % 256) as u8
            } else if i == 2 {
                (salt % 256) as u8
            } else {
                0u8
            },
    )
}

/// How many keys a board needs: one per edge and one for the starting hash.
pub open spec fn key_count(width: nat, height: nat) -> nat {
    width * (2 * height + 1) + height + 1
}

/// All keys of a board, in the order in which they are drawn: column by
/// column the top edge followed by the right and down edges of each square,
/// then the left border, then the starting hash. A key is a drawn value cut
/// down to a `usize`.
pub open spec fn key_stream(width: nat, height: nat, salt: nat) -> Seq<usize> {
    let drawn = seeded_values(zobrist_seed(width, height, salt), key_count(width, height));
    Seq::new(drawn.len(), |i: int| drawn[i] as usize)
}

/// The keys of a board laid out by edge.
pub struct KeyTable {
    pub top: Seq<usize>,
    pub left: Seq<usize>,
    pub right: Seq<Seq<usize>>,
    pub down: Seq<Seq<usize>>,
}

/// The key table of a board of the given size and salt.
pub open spec fn key_table(width: nat, height: nat, salt: nat) -> KeyTable {
    let s = key_stream(width, height, salt);
    let col = 2 * (height as int) + 1;
    let width = width as int;
    let height = height as int;
    KeyTable {
        top: Seq::new(width as nat, |x: int| s[x * col]),
        left: Seq::new(height as nat, |y: int| s[width * col + y]),
        right: Seq::new(width as nat, |x: int| Seq::new(height as nat, |y: int| s[x * col + 1 + 2 * y])),
        down: Seq::new(width as nat, |x: int| Seq::new(height as nat, |y: int| s[x * col + 2 + 2 * y])),
    }
}

/// The value at which the hash of a board starts: the key drawn last.
pub open spec fn start_key(width: nat, height: nat, salt: nat) -> usize {
    key_stream(width, height, salt)[(width * (2 * height + 1) + height) as int]
}

/// The key of the edge that `m` names, for `m` on the table's board.
pub open spec fn edge_key(t: KeyTable, m: Move) -> usize {
    let x = m.x as int;
    let y = m.y as int;
    match m.side {
        Side::Left => if x == 0 {
            t.left[y]
        } else {
            t.right[x - 1][y]
        },
        Side::Top => if y == 0 {
            t.top[x]
        } else {
            t.down[x][y - 1]
        },
        Side::Right => t.right[x][y],
        Side::Bottom => t.down[x][y],
    }
}

/// The running hash of a position together with the keys of its board.
pub struct ZHash {
    salt: Ghost<nat>,
    current_val: usize,
    top_strings: Vec<usize>,
    left_strings: Vec<usize>,
    right_strings: Vec<Vec<usize>>,
    down_strings: Vec<Vec<usize>>,
}

/// `(x + 1) * c` written out, for the index arithmetic of the key stream.
proof fn lemma_next_column(x: int, c: int)
    ensures
        (x + 1) * c == x * c + c,
{
    assert((x + 1) * c == x * c + c) by (nonlinear_arith);
}

/// Products of naturals are monotone in the first factor.
proof fn lemma_column_bound(x: int, w: int, c: int)
    requires
        0 <= x < w,
        0 <= c,
    ensures
        0 <= x * c,
        x * c + c <= w * c,
{
    assert(0 <= x * c && x * c + c <= w * c) by (nonlinear_arith)
        requires
            0 <= x < w,
            0 <= c,
    ;
}

/// A copy of a grid of keys.
fn copy_grid(g: &Vec<Vec<usize>>) -> (c: Vec<Vec<usize>>)
    ensures
        c@.len() == g@.len(),
        forall|x: int| 0 <= x < g@.len() ==> c@[x]@ == g@[x]@,
{
    let mut c: Vec<Vec<usize>> = Vec::with_capacity(g.len());
    let mut x: usize = 0;
    while x < g.len()
        invariant
            x <= g@.len(),
            c@.len() == x,
            forall|a: int| 0 <= a < x ==> c@[a]@ == g@[a]@,
        decreases g@.len() - x,
    {
        let col = g[x].clone();
        c.push(col);
        x += 1;
    }
    c
}

impl ZHash {
    /// The keys, as a table.
    pub closed spec fn table(&self) -> KeyTable {
        KeyTable {
            top: self.top_strings@,
            left: self.left_strings@,
            right: Seq::new(self.right_strings@.len(), |x: int| self.right_strings@[x]@),
            down: Seq::new(self.down_strings@.len(), |x: int| self.down_strings@[x]@),
        }
    }

    /// The running hash.
    pub closed spec fn value(&self) -> usize {
        self.current_val
    }

    /// The salt that the keys were drawn with.
    pub closed spec fn salt(&self) -> nat {
        self.salt@
    }

    /// The table is that of a `width` by `height` board with salt `salt`.
    pub open spec fn keyed(&self, width: nat, height: nat, salt: nat) -> bool {
        let t = key_table(width, height, salt);
        &&& self.salt() == salt
        &&& self.table().top == t.top
        &&& self.table().left == t.left
        &&& self.table().right == t.right
        &&& self.table().down == t.down
    }

    /// The seed for a board: see `zobrist_seed`.
    fn seed_of(width: usize, height: usize, extra_seed: usize) -> (seed: [u8; 32])
        ensures
            seed@ == zobrist_seed(width as nat, height as nat, extra_seed as nat),
    {
        let a: u8 = (width % 256) as u8;
        let b: u8 = (height % 256) as u8;
        let c: u8 = (extra_seed % 256) as u8;
        let seed: [u8; 32] = [
            a, b, c, 0, 0, 0, 0, 0, 0, 0, 0, 0, 0, 0, 0, 0, 0, 0, 0, 0, 0, 0, 0, 0, 0, 0, 0, 0, 0, 0, 0, 0,
        ];
        assert(seed@ =~= zobrist_seed(width as nat, height as nat, extra_seed as nat));
        seed
    }

    /// The keys for a board with salt zero.
    pub fn new(width: usize, height: usize) -> (z: ZHash)
        requires
            key_count(width as nat, height as nat) <= usize::MAX,
        ensures
            z.keyed(width as nat, height as nat, 0),
            z.value() == start_key(width as nat, height as nat, 0),
    {
        ZHash::new_seeded(width, height, 0)
    }

    /// Draws the keys for a board and starts the hash at the last key drawn.
    #[verifier::rlimit(40)]
    pub fn new_seeded(width: usize, height: usize, extra_seed: usize) -> (z: ZHash)
        requires
            key_count(width as nat, height as nat) <= usize::MAX,
        ensures
            z.keyed(width as nat, height as nat, extra_seed as nat),
            z.value() == start_key(width as nat, height as nat, extra_seed as nat),
    {
        let seed = ZHash::seed_of(width, height, extra_seed);
        let ghost w = width as int;
        let ghost h = height as int;
        let ghost col = 2 * h + 1;
        let mut count: usize = height + 1;
        let mut i: usize = 0;
        while i < width
            invariant
                i <= width,
                w == width,
                h == height,
                col == 2 * h + 1,
                count == i * col + h + 1,
                w * col + h + 1 <= usize::MAX,
            decreases width - i,
        {
            proof {
                lemma_next_column(i as int, col);
                lemma_column_bound(i as int, w, col);
            }
            count = count + height;
            count = count + height;
            count = count + 1;
            i += 1;
        }
        let drawn = draw_values(seed, count);
        let mut vals: Vec<usize> = Vec::with_capacity(count);
        let mut j: usize = 0;
        while j < count
            invariant
                j <= count,
                count == drawn@.len(),
                vals@.len() == j,
                forall|a: int| 0 <= a < j ==> vals@[a] == drawn@[a] as usize,
            decreases count - j,
        {
            vals.push(#[verifier::truncate] (drawn[j] as usize));
            j += 1;
        }
        let ghost s = key_stream(width as nat, height as nat, extra_seed as nat);
        assert(vals@ =~= s);
        let ghost t = key_table(width as nat, height as nat, extra_seed as nat);

        let mut top_strings: Vec<usize> = Vec::with_capacity(width);
        let mut left_strings: Vec<usize> = Vec::with_capacity(height);
        let mut right_strings: Vec<Vec<usize>> = Vec::with_capacity(width);
        let mut down_strings: Vec<Vec<usize>> = Vec::with_capacity(width);
        let mut k: usize = 0;
        let mut x: usize = 0;
        while x < width
            invariant
                x <= width,
                w == width,
                h == height,
                col == 2 * h + 1,
                k == x * col,
                vals@ == s,
                s.len() == w * col + h + 1,
                w * col + h + 1 <= usize::MAX,
                t == key_table(width as nat, height as nat, extra_seed as nat),
                s == key_stream(width as nat, height as nat, extra_seed as nat),
                top_strings@.len() == x,
                right_strings@.len() == x,
                down_strings@.len() == x,
                forall|a: int| 0 <= a < x ==> top_strings@[a] == t.top[a],
                forall|a: int| 0 <= a < x ==> right_strings@[a]@ == t.right[a],
                forall|a: int| 0 <= a < x ==> down_strings@[a]@ == t.down[a],
            decreases width - x,
        {
            proof {
                lemma_next_column(x as int, col);
                lemma_column_bound(x as int, w, col);
            }
            top_strings.push(vals[k]);
            k += 1;
            let mut right_col: Vec<usize> = Vec::with_capacity(height);
            let mut down_col: Vec<usize> = Vec::with_capacity(height);
            let mut y: usize = 0;
            while y < height
                invariant
                    y <= height,
                    x < width,
                    w == width,
                    h == height,
                    col == 2 * h + 1,
                    k == x * col + 1 + 2 * y,
                    0 <= x * col,
                    x * col + col <= w * col,
                    vals@ == s,
                    s.len() == w * col + h + 1,
                    w * col + h + 1 <= usize::MAX,
                w * col + h + 1 <= usize::MAX,
                    right_col@.len() == y,
                    down_col@.len() == y,
                    forall|b: int| 0 <= b < y ==> right_col@[b] == s[x * col + 1 + 2 * b],
                    forall|b: int| 0 <= b < y ==> down_col@[b] == s[x * col + 2 + 2 * b],
                decreases height - y,
            {
                right_col.push(vals[k]);
                k += 1;
                down_col.push(vals[k]);
                k += 1;
                y += 1;
            }
            assert(right_col@ =~= t.right[x as int]);
            assert(down_col@ =~= t.down[x as int]);
            right_strings.push(right_col);
            down_strings.push(down_col);
            x += 1;
        }
        let mut y: usize = 0;
        while y < height
            invariant
                y <= height,
                w == width,
                h == height,
                col == 2 * h + 1,
                k == w * col + y,
                vals@ == s,
                s.len() == w * col + h + 1,
                w * col + h + 1 <= usize::MAX,
                t == key_table(width as nat, height as nat, extra_seed as nat),
                s == key_stream(width as nat, height as nat, extra_seed as nat),
                left_strings@.len() == y,
                forall|b: int| 0 <= b < y ==> left_strings@[b] == t.left[b],
            decreases height - y,
        {
            left_strings.push(vals[k]);
            k += 1;
            y += 1;
        }
        let z = ZHash {
            salt: Ghost(extra_seed as nat),
            current_val: vals[k],
            top_strings,
            left_strings,
            right_strings,
            down_strings,
        };
        assert(z.table().top =~= t.top);
        assert(z.table().left =~= t.left);
        assert(z.table().right =~= t.right);
        assert(z.table().down =~= t.down);
        z
    }

    /// Folds the key of `m`'s edge into the running hash.
    pub(crate) fn toggle_element(&mut self, m: Move, Ghost(width): Ghost<nat>, Ghost(height): Ghost<nat>)
        requires
            old(self).keyed(width, height, old(self).salt()),
            m.x < width,
            m.y < height,
        ensures
            final(self).table() == old(self).table(),
            final(self).salt() == old(self).salt(),
            final(self).value() == old(self).value() ^ edge_key(
                key_table(width, height, old(self).salt()),
                m,
            ),
    {
        proof {
            let t = key_table(width, height, self.salt());
            let x = m.x as int;
            let y = m.y as int;
            assert(self.table().top.len() == width && self.table().left.len() == height);
            assert(self.table().right.len() == width && self.table().down.len() == width);
            assert(self.table().right[x] == t.right[x] && self.table().down[x] == t.down[x]);
            assert(self.right_strings@[x]@.len() == height && self.down_strings@[x]@.len()
                == height);
            if x > 0 {
                assert(self.table().right[x - 1] == t.right[x - 1]);
                assert(self.right_strings@[x - 1]@.len() == height);
            }
        }
        let key = match m.side {
            Side::Left => if m.x == 0 {
                self.left_strings[m.y]
            } else {
                self.right_strings[m.x - 1][m.y]
            },
            Side::Top => if m.y == 0 {
                self.top_strings[m.x]
            } else {
                self.down_strings[m.x][m.y - 1]
            },
            Side::Right => self.right_strings[m.x][m.y],
            Side::Bottom => self.down_strings[m.x][m.y],
        };
        self.current_val = self.current_val ^ key;
    }

    /// A copy with the same keys and the same running hash.
    pub(crate) fn duplicate(&self) -> (z: ZHash)
        ensures
            z.table() == self.table(),
            z.salt() == self.salt(),
            z.value() == self.value(),
    {
        let z = ZHash {
            salt: self.salt,
            current_val: self.current_val,
            top_strings: self.top_strings.clone(),
            left_strings: self.left_strings.clone(),
            right_strings: copy_grid(&self.right_strings),
            down_strings: copy_grid(&self.down_strings),
        };
        assert(z.table().top =~= self.table().top);
        assert(z.table().left =~= self.table().left);
        assert(z.table().right =~= self.table().right);
        assert(z.table().down =~= self.table().down);
        z
    }

    /// The running hash.
    pub fn current_value(&self) -> (v: usize)
        ensures
            v == self.value(),
    {
        self.current_val
    }
}

} // verus!
