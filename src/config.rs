//! The settings a fuzzing run starts from.
use vstd::prelude::*;

use crate::path::{join, join_path};

verus! {

/// Byte `i` of a seed read from `b`; bytes past the end of `b` count as zero.
pub open spec fn seed_byte(b: Seq<u8>, i: int) -> u8 {
    if 0 <= i < b.len() {
        b[i]
    } else {
        0
    }
}

/// The first `n` seed bytes of `b` read as a big-endian number.
pub open spec fn be_prefix(b: Seq<u8>, n: nat) -> nat
    decreases n,
{
    if n == 0 {
        0
    } else {
        (be_prefix(b, (n - 1) as nat) * 256 + seed_byte(b, n - 1)) as nat
    }
}

/// The seed that the bytes `b` of a seed file give: their first eight bytes,
/// zero-filled where the file is shorter, as a big-endian number.
pub open spec fn seed_value(b: Seq<u8>) -> nat {
    be_prefix(b, 8)
}

/// The largest number of `n` bytes.
pub open spec fn max_of_bytes(n: nat) -> nat
    decreases n,
{
    if n == 0 {
        0
    } else {
        max_of_bytes((n - 1) as nat) * 256 + 255
    }
}

proof fn lemma_be_prefix_bound(b: Seq<u8>, n: nat)
    ensures
        be_prefix(b, n) <= max_of_bytes(n),
    decreases n,
{
    if n > 0 {
        lemma_be_prefix_bound(b, (n - 1) as nat);
        let p = be_prefix(b, (n - 1) as nat);
        let m = max_of_bytes((n - 1) as nat);
        assert(p * 256 <= m * 256) by (nonlinear_arith)
            requires
                p <= m,
        ;
    }
}

/// The seed read from the bytes of a seed file.
pub fn seed_from_bytes(b: &[u8]) -> (r: u64)
    ensures
        r as nat == seed_value(b@),
{
    let mut r: u64 = 0;
    let mut i: usize = 0;
    proof {
        reveal_with_fuel(max_of_bytes, 9);
    }
    assert(max_of_bytes(7) * 256 + 255 == u64::MAX);
    while i < 8
        invariant
            i <= 8,
            r as nat == be_prefix(b@, i as nat),
        decreases 8 - i,
    {
        proof {
            lemma_be_prefix_bound(b@, i as nat);
            reveal_with_fuel(max_of_bytes, 9);
            let m = max_of_bytes(i as nat);
            let m7 = max_of_bytes(7);
            assert(m <= m7) by {
                assert(max_of_bytes(0) <= max_of_bytes(1) <= max_of_bytes(2) <= max_of_bytes(3)
                    <= max_of_bytes(4) <= max_of_bytes(5) <= max_of_bytes(6) <= max_of_bytes(7));
            }
            assert(r * 256 <= m7 * 256) by (nonlinear_arith)
                requires
                    r <= m7,
            ;
        }
        let byte: u8 = if i < b.len() {
            b[i]
        } else {
            0
        };
        r = r * 256 + byte as u64;
        i = i + 1;
    }
    r
}

/// The bytes of `hoedur-project`, the directory a run writes to.
pub open spec fn project_dir_name() -> Seq<u8> {
    seq![104u8, 111u8, 101u8, 100u8, 117u8, 114u8, 45u8, 112u8, 114u8, 111u8, 106u8, 101u8, 99u8, 116u8]
}

/// The arguments of a fuzzing run as given on the command line.
#[derive(Debug)]
pub struct HoedurArguments {
    /// The file that holds the run's random seed, if any.
    pub seed: Option<Vec<u8>>,
    pub prefix_input: Vec<Vec<u8>>,
    pub import_corpus: Vec<Vec<u8>>,
    pub snapshots: bool,
    pub statistics: bool,
}

/// The settings of one fuzzing run.
#[derive(Debug)]
pub struct HoedurConfig {
    pub name: String,
    pub output_dir: Vec<u8>,
    pub seed: Option<u64>,
    pub prefix_input: Vec<Vec<u8>>,
    pub import_corpus: Vec<Vec<u8>>,
    pub snapshots: bool,
    pub statistics: bool,
}

impl HoedurConfig {
    pub fn new(
        name: String,
        output_dir: Vec<u8>,
        seed: Option<u64>,
        prefix_input: Vec<Vec<u8>>,
        import_corpus: Vec<Vec<u8>>,
        snapshots: bool,
        statistics: bool,
    ) -> (r: Self)
        ensures
            r.name@ == name@,
            r.output_dir@ == output_dir@,
            r.seed == seed,
            r.prefix_input@ == prefix_input@,
            r.import_corpus@ == import_corpus@,
            r.snapshots == snapshots,
            r.statistics == statistics,
    {
        HoedurConfig { name, output_dir, seed, prefix_input, import_corpus, snapshots, statistics }
    }

    /// The settings for the run `name` started from `current_dir` with
    /// `args`; `seed_data` holds the bytes read from the seed file, where
    /// the arguments name one.
    pub fn from_cli(
        name: String,
        args: HoedurArguments,
        current_dir: &[u8],
        seed_data: Option<&[u8]>,
    ) -> (r: Self)
        ensures
            r.name@ == name@,
            r.output_dir@ == join(current_dir@, project_dir_name()),
            seed_data is None ==> r.seed is None,
            seed_data is Some ==> r.seed is Some && r.seed->Some_0 as nat == seed_value(
                seed_data->Some_0@,
            ),
            r.prefix_input@ == args.prefix_input@,
            r.import_corpus@ == args.import_corpus@,
            r.snapshots == args.snapshots,
            r.statistics == args.statistics,
    {
        let dir_name: Vec<u8> = vec![104u8, 111u8, 101u8, 100u8, 117u8, 114u8, 45u8, 112u8, 114u8, 111u8, 106u8, 101u8, 99u8, 116u8];
        assert(dir_name@ == project_dir_name());
        let output_dir = join_path(current_dir, dir_name.as_slice());
        let seed = match seed_data {
            Some(b) => Some(seed_from_bytes(b)),
            None => None,
        };
        Self::new(
            name,
            output_dir,
            seed,
            args.prefix_input,
            args.import_corpus,
            args.snapshots,
            args.statistics,
        )
    }
}

} // verus!
