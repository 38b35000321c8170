//! Audio nodes, and where the samples for an analyser come from and go to.
use vstd::arithmetic::power2::pow2;
use vstd::prelude::*;

verus! {

/// A node of the graph: the stream that it hears, and how many samples it looks at at once.
#[derive(Clone, Copy, PartialEq, Eq, Structural, Debug)]
pub struct AudioNode {
    pub capture: Option<u32>,
    pub fft_size: Option<u32>,
}

/// A node that hears a stream.
pub fn build_audio_node(capture: Option<u32>) -> (r: AudioNode)
    ensures
        r == (AudioNode { capture, fft_size: None }),
{
    AudioNode { capture, fft_size: None }
}

/// An analyser that hears nothing yet.
pub fn create_analyser() -> (r: AudioNode)
    ensures
        r == (AudioNode { capture: None, fft_size: Some(2048) }),
{
    AudioNode { capture: None, fft_size: Some(2048) }
}

/// A node that another one leads to: it hears what that one hears, if that one hears anything.
pub open spec fn connected(src: AudioNode, dest: AudioNode) -> AudioNode {
    match src.capture {
        Some(_) => AudioNode { capture: src.capture, ..dest },
        None => dest,
    }
}

/// Leads a node to another.
pub fn audio_node_connect(src: &AudioNode, dest: &mut AudioNode)
    ensures
        *final(dest) == connected(*src, *old(dest)),
{
    if src.capture.is_some() {
        dest.capture = src.capture;
    }
}

/// Every node at the end of a chain hears the stream at its start.
pub proof fn chains_carry_the_stream(source: AudioNode, middle: AudioNode, end: AudioNode)
    requires
        source.capture is Some,
    ensures
        connected(connected(source, middle), end).capture == source.capture,
        connected(connected(source, middle), end).fft_size == end.fft_size,
{
}

/// How many samples an analyser looks at at once.
pub fn analyser_window(node: &AudioNode) -> (r: u32)
    ensures
        r == match node.fft_size {
            Some(n) => if n < 2 {
                2
            } else {
                n
            },
            None => 2048,
        },
        r >= 2,
        node.fft_size matches Some(n) ==> (n >= 2 ==> r == n),
{
    match node.fft_size {
        Some(n) => if n < 2 {
            2
        } else {
            n
        },
        None => 2048,
    }
}

/// The lesser of two.
pub open spec fn least(a: int, b: int) -> int {
    if a < b {
        a
    } else {
        b
    }
}

/// The latest frames of a recording: the place of the first sample, and how many frames there are.
/// A frame has one sample of each channel.
pub fn recent_frames(samples: usize, channels: u16, wanted: usize) -> (r: (usize, usize))
    ensures
        ({
            let per = if channels == 0 {
                1
            } else {
                channels as int
            };
            let frames = samples as int / per;
            &&& r.1 == least(wanted as int, frames)
            &&& r.0 == (frames - r.1) * per
            &&& r.0 + r.1 * per <= samples
        }),
{
    let per: usize = if channels == 0 {
        1
    } else {
        channels as usize
    };
    let frames: usize = samples / per;
    let take: usize = if wanted < frames {
        wanted
    } else {
        frames
    };
    let start: usize = frames - take;
    proof {
        vstd::arithmetic::div_mod::lemma_fundamental_div_mod(samples as int, per as int);
        assert(start * per + take * per == per * frames) by (nonlinear_arith)
            requires
                start == frames - take,
        ;
        assert(0 <= start * per && 0 <= take * per) by (nonlinear_arith)
            requires
                0 <= start,
                0 <= take,
                0 <= per,
        ;
    }
    (start * per, take)
}

/// The values of an analyser as the entries of an array: one after the other, and another value
/// where there are no more.
pub open spec fn entries_of(v: Seq<u8>, length: nat, other: u8) -> Seq<u8> {
    Seq::new(
        length,
        |i: int|
            if i < v.len() {
                v[i]
            } else {
                other
            },
    )
}

fn fill_entries(v: &[u8], length: usize, other: u8) -> (r: Vec<u8>)
    ensures
        r@ == entries_of(v@, length as nat, other),
{
    let mut out: Vec<u8> = Vec::new();
    let mut i: usize = 0;
    while i < length
        invariant
            i <= length,
            out@ == entries_of(v@, length as nat, other).take(i as int),
        decreases length - i,
    {
        let ghost goal = entries_of(v@, length as nat, other);
        if i < v.len() {
            out.push(v[i]);
        } else {
            out.push(other);
        }
        proof {
            assert(goal.take(i + 1) =~= goal.take(i as int).push(goal[i as int]));
        }
        i = i + 1;
    }
    proof {
        let goal = entries_of(v@, length as nat, other);
        assert(goal.take(length as int) =~= goal);
    }
    out
}

/// The entries for the magnitudes of an analyser, which are zero where there are no more.
pub fn frequency_entries(magnitudes: &[u8], length: usize) -> (r: Vec<u8>)
    ensures
        r@ == entries_of(magnitudes@, length as nat, 0),
{
    fill_entries(magnitudes, length, 0)
}

/// The entries for the samples of an analyser, which are silence where there are no more: 128.
pub fn time_entries(samples: &[u8], length: usize) -> (r: Vec<u8>)
    ensures
        r@ == entries_of(samples@, length as nat, 128),
{
    fill_entries(samples, length, 128)
}

/// The length of a transform of so many samples: the least power of two that is not below it, and
/// at most 4096.
pub fn transform_length(samples: usize) -> (r: usize)
    ensures
        1 <= r <= 4096,
        exists|k: nat| r == pow2(k),
        samples > 4096 ==> r == 4096,
        samples <= 4096 ==> samples <= r,
        forall|k: nat| pow2(k) < r ==> #[trigger] pow2(k) < samples,
{
    let mut n: usize = 1;
    let ghost mut k: nat = 0;
    proof {
        vstd::arithmetic::power2::lemma2_to64();
        assert(4096 == pow2(12));
        assert forall|j: nat| pow2(j) < 1 implies #[trigger] pow2(j) < samples by {
            vstd::arithmetic::power2::lemma_pow2_pos(j);
        }
    }
    while n < samples && n < 4096
        invariant
            1 <= n <= 4096,
            n == pow2(k),
            4096 == pow2(12),
            forall|j: nat| pow2(j) < n ==> #[trigger] pow2(j) < samples,
        decreases 4096 - n,
    {
        proof {
            vstd::arithmetic::power2::lemma_pow2_unfold(k + 1);
            if k >= 12 {
                lemma_pow2_grows(12, k);
            } else {
                lemma_pow2_grows(k + 1, 12);
            }
            assert forall|j: nat| pow2(j) < 2 * n implies #[trigger] pow2(j) < samples by {
                if j > k {
                    lemma_pow2_grows(k + 1, j);
                } else {
                    lemma_pow2_grows(j, k);
                }
            }
            k = k + 1;
        }
        n = n * 2;
    }
    n
}

proof fn lemma_pow2_grows(a: nat, b: nat)
    requires
        a <= b,
    ensures
        pow2(a) <= pow2(b),
    decreases b,
{
    if a < b {
        lemma_pow2_grows(a, (b - 1) as nat);
        vstd::arithmetic::power2::lemma_pow2_unfold(b);
    }
}

/// A number with its lowest bits in the opposite order.
pub open spec fn mirrored(i: int, bits: nat) -> int
    decreases bits,
{
    if bits == 0 {
        0
    } else {
        (i % 2) * pow2((bits - 1) as nat) + mirrored(i / 2, (bits - 1) as nat)
    }
}

proof fn lemma_mirrored_bound(i: int, bits: nat)
    requires
        0 <= i,
    ensures
        0 <= mirrored(i, bits) < pow2(bits),
    decreases bits,
{
    if bits > 0 {
        lemma_mirrored_bound(i / 2, (bits - 1) as nat);
        vstd::arithmetic::power2::lemma_pow2_unfold(bits);
        let p = pow2((bits - 1) as nat);
        assert((i % 2) * p <= p && 0 <= (i % 2) * p) by (nonlinear_arith)
            requires
                0 <= i % 2 <= 1,
                p >= 0,
        ;
    } else {
        vstd::arithmetic::power2::lemma2_to64();
    }
}

/// One or none of a value.
proof fn lemma_bit_times(bit: int, p: int)
    requires
        bit == 0 || bit == 1,
    ensures
        bit * p == if bit == 1 {
            p
        } else {
            0
        },
{
    assert(0 * p == 0 && 1 * p == p) by (nonlinear_arith);
}

/// The highest bit becomes the lowest one.
proof fn lemma_top_bit(a: int, b: int, bits: nat)
    requires
        a == 0 || a == 1,
        0 <= b < pow2(bits),
    ensures
        mirrored(a * pow2(bits) + b, bits + 1) == 2 * mirrored(b, bits) + a,
    decreases bits,
{
    let p = pow2(bits) as int;
    lemma_bit_times(a, p);
    let x = a * p + b;
    if bits == 0 {
        vstd::arithmetic::power2::lemma2_to64();
        assert(pow2(0) == 1);
        assert(b == 0);
        assert(x == a);
        lemma_bit_times(a, 1);
        assert(mirrored(a / 2, 0) == 0);
        assert(mirrored(x, 1) == (x % 2) * 1 + mirrored(x / 2, 0));
    } else {
        let less = (bits - 1) as nat;
        let half = pow2(less) as int;
        vstd::arithmetic::power2::lemma_pow2_unfold(bits);
        lemma_bit_times(a, half);
        assert(x % 2 == b % 2);
        assert(x / 2 == a * half + b / 2);
        lemma_top_bit(a, b / 2, less);
        lemma_bit_times(b % 2, p);
        lemma_bit_times(b % 2, half);
        assert(mirrored(x, bits + 1) == (x % 2) * p + mirrored(x / 2, bits));
    }
}

/// Turning the bits of a number round twice leaves it as it was.
pub proof fn mirrored_twice_is_nothing(i: int, bits: nat)
    requires
        0 <= i < pow2(bits),
    ensures
        mirrored(mirrored(i, bits), bits) == i,
    decreases bits,
{
    if bits == 0 {
        vstd::arithmetic::power2::lemma2_to64();
        assert(pow2(0) == 1);
    } else {
        let less = (bits - 1) as nat;
        vstd::arithmetic::power2::lemma_pow2_unfold(bits);
        mirrored_twice_is_nothing(i / 2, less);
        lemma_mirrored_bound(i / 2, less);
        lemma_top_bit(i % 2, mirrored(i / 2, less), less);
    }
}

fn mirror(i: usize, bits: u32) -> (r: usize)
    requires
        bits <= 12,
        i < pow2(bits as nat),
    ensures
        r == mirrored(i as int, bits as nat),
        r < pow2(bits as nat),
{
    let mut rest: usize = i;
    let mut out: usize = 0;
    let mut left: u32 = bits;
    let ghost mut scale: nat = pow2(bits as nat);
    proof {
        lemma_mirrored_bound(i as int, bits as nat);
        lemma_pow2_grows(bits as nat, 12);
        vstd::arithmetic::power2::lemma2_to64();
        assert(0 * scale == 0) by (nonlinear_arith);
    }
    while left > 0
        invariant
            left <= bits <= 12,
            scale == pow2(left as nat),
            mirrored(i as int, bits as nat) == out * scale + mirrored(rest as int, left as nat),
            mirrored(i as int, bits as nat) < 4096,
        decreases left,
    {
        let ghost half = pow2((left - 1) as nat);
        let bit: usize = rest % 2;
        proof {
            vstd::arithmetic::power2::lemma_pow2_unfold(left as nat);
            vstd::arithmetic::power2::lemma_pow2_pos(left as nat);
            vstd::arithmetic::power2::lemma_pow2_pos((left - 1) as nat);
            lemma_mirrored_bound(rest as int, left as nat);
            assert(out <= out * scale) by (nonlinear_arith)
                requires
                    scale >= 1,
                    out >= 0,
            ;
            assert(out * scale + bit * half == (2 * out + bit) * half) by (nonlinear_arith)
                requires
                    scale == 2 * half,
            ;
        }
        out = 2 * out + bit;
        rest = rest / 2;
        left = left - 1;
        proof {
            scale = half;
        }
    }
    proof {
        vstd::arithmetic::power2::lemma2_to64();
        assert(out * 1 == out) by (nonlinear_arith);
    }
    out
}

/// The values of a transform in the order in which it starts: each at the place whose bits are
/// those of its own place turned round.
pub fn bit_reversed<T: Copy>(v: &[T], bits: u32) -> (r: Vec<T>)
    requires
        bits <= 12,
        v@.len() == pow2(bits as nat),
    ensures
        r@ == Seq::new(v@.len(), |i: int| v@[mirrored(i, bits as nat)]),
{
    let n: usize = v.len();
    let mut out: Vec<T> = Vec::new();
    let mut i: usize = 0;
    while i < n
        invariant
            i <= n,
            n == v@.len(),
            bits <= 12,
            n == pow2(bits as nat),
            out@.len() == i,
            forall|j: int| 0 <= j < i ==> #[trigger] out@[j] == v@[mirrored(j, bits as nat)],
        decreases n - i,
    {
        out.push(v[mirror(i, bits)]);
        i = i + 1;
    }
    proof {
        assert(out@ =~= Seq::new(v@.len(), |i: int| v@[mirrored(i, bits as nat)]));
    }
    out
}

/// The highest bit of a number becomes the lowest, and the others follow it.
pub proof fn highest_bit_becomes_lowest(b: int, i: int, bits: nat)
    requires
        0 <= b <= 1,
        0 <= i < pow2(bits),
    ensures
        mirrored(b * pow2(bits) + i, bits + 1) == 2 * mirrored(i, bits) + b,
    decreases bits,
{
    vstd::arithmetic::power2::lemma2_to64();
    if bits == 0 {
        reveal_with_fuel(mirrored, 2);
        assert(pow2(0) == 1);
        assert(b * 1 == b);
        assert(mirrored(b, 1) == (b % 2) * pow2(0) + mirrored(b / 2, 0));
        assert((b % 2) * 1 == b);
    } else {
        let m = (bits - 1) as nat;
        vstd::arithmetic::power2::lemma_pow2_unfold(bits);
        let p = pow2(m) as int;
        assert(pow2(bits) == 2 * p);
        let q = i / 2;
        let r = i % 2;
        let n = b * pow2(bits) + i;
        assert(n == 2 * (b * p + q) + r) by (nonlinear_arith)
            requires
                n == b * (2 * p) + i,
                i == 2 * q + r,
        ;
        assert(n % 2 == r && n / 2 == b * p + q);
        highest_bit_becomes_lowest(b, q, m);
        assert(mirrored(n, bits + 1) == (n % 2) * pow2(bits) + mirrored(n / 2, bits));
        assert(mirrored(i, bits) == (i % 2) * pow2(m) + mirrored(q, m));
        assert(r * (2 * p) == 2 * (r * p)) by (nonlinear_arith);
    }
}

/// The entries of an array are the values, as far as they go, and the other value behind them.
pub proof fn entries_are_filled_up(v: Seq<u8>, length: nat, other: u8, i: int)
    requires
        0 <= i < length,
    ensures
        entries_of(v, length, other).len() == length,
        i < v.len() ==> entries_of(v, length, other)[i] == v[i],
        i >= v.len() ==> entries_of(v, length, other)[i] == other,
{
}

/// A node that nothing is heard from leaves the one it leads to as it was.
pub proof fn silent_nodes_change_nothing(src: AudioNode, dest: AudioNode)
    ensures
        src.capture is None ==> connected(src, dest) == dest,
        src.capture is Some ==> connected(src, dest).capture == src.capture,
        connected(src, dest).fft_size == dest.fft_size,
{
}

} // verus!
