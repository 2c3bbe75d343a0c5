//! The test matrix and the defaults of a run.
use vstd::prelude::*;

verus! {

/// The file sizes of the matrix, in MiB.
pub const FILE_SIZES_MIB: [u64; 3] = [10, 100, 1000];

/// The chunk sizes of the matrix, in MiB.
pub const CHUNK_SIZES_MIB: [u64; 7] = [1, 2, 4, 8, 16, 32, 64];

/// Bytes in a MiB.
pub const MIB: u64 = 1024 * 1024;

/// Where the server listens unless told otherwise.
pub const DEFAULT_SERVER_ADDR: &'static str = "127.0.0.1:8080";

/// Requests per second.
pub const DEFAULT_RPS: u64 = 10;

/// Length of the measured run: 5 minutes.
pub const DEFAULT_DURATION_SECS: u64 = 300;

/// Length of the warm-up: 2 minutes.
pub const DEFAULT_WARMUP_SECS: u64 = 120;

/// The least number of operations of a warm-up.
pub const DEFAULT_WARMUP_MIN_OPS: u64 = 200;

/// Upper bounds of the throughput of each stage, as they are shown before a run.
pub const THEORETICAL_ESTIMATES: &'static str = "=== Theoretical Throughput Estimates ===

  Pipeline stage upper bounds (single-core, typical modern CPU):
  ---------------------------------------------------------------
  Loopback network (localhost):  ~20-40 Gbps
  Random byte gen (ChaCha20):    ~1.5-3.0 GB/s  = ~12-24 Gbps
  SHA-512 (software):            ~1.5-2.5 GB/s  = ~12-20 Gbps
  AES-256-GCM (AES-NI):          ~4-8 GB/s      = ~32-64 Gbps
  Memory copy/alloc overhead:     ~8-15 GB/s     = ~64-120 Gbps

  Upload bottleneck:   SHA-512 + AES-GCM on critical path
  -> Expected peak:    ~8-12 Gbps (limited by SHA-512 + encrypt combined)

  Download bottleneck: Random byte generation + network
  -> Expected peak:    ~12-20 Gbps (limited by RNG throughput)

  Per-chunk overhead hypothesis:
  - 1 MiB chunks:  highest per-chunk overhead, more SHA/AES init cycles
  - 8-32 MiB:      expected sweet spot (amortized overhead)
  - 64 MiB:        may increase tail latency from buffer pressure
  ---------------------------------------------------------------

";

/// The direction of a transfer.
#[derive(Debug, Clone, Copy, PartialEq, Eq, Structural)]
pub enum Operation {
    Upload,
    Download,
}

impl Operation {
    /// The name of the operation.
    pub open spec fn name(self) -> Seq<char> {
        match self {
            Operation::Upload => "Upload"@,
            Operation::Download => "Download"@,
        }
    }

    /// The name of the operation.
    pub fn as_str(&self) -> (s: &'static str)
        ensures
            s@ == self.name(),
    {
        match self {
            Operation::Upload => "Upload",
            Operation::Download => "Download",
        }
    }

    /// The name of the operation, as an owned string.
    pub fn to_string(&self) -> (s: String)
        ensures
            s@ == self.name(),
    {
        self.as_str().to_owned()
    }
}

/// One cell of the test matrix.
#[derive(Debug, Clone, Copy, PartialEq, Eq, Structural)]
pub struct BenchmarkCase {
    pub operation: Operation,
    pub file_size_mib: u64,
    pub chunk_size_mib: u64,
}

impl BenchmarkCase {
    /// The file size in bytes.
    pub fn file_size_bytes(&self) -> (bytes: u64)
        requires
            self.file_size_mib * MIB <= u64::MAX,
        ensures
            bytes == self.file_size_mib * MIB,
    {
        self.file_size_mib * MIB
    }

    /// The chunk size in bytes.
    pub fn chunk_size_bytes(&self) -> (bytes: u64)
        requires
            self.chunk_size_mib * MIB <= u64::MAX,
        ensures
            bytes == self.chunk_size_mib * MIB,
    {
        self.chunk_size_mib * MIB
    }
}

/// The matrix, in the order in which it is run: by operation, then file size, then chunk size.
pub open spec fn matrix() -> Seq<BenchmarkCase> {
    Seq::new(
        42,
        |i: int|
            BenchmarkCase {
                operation: if i < 21 {
                    Operation::Upload
                } else {
                    Operation::Download
                },
                file_size_mib: FILE_SIZES_MIB@[(i / 7) % 3],
                chunk_size_mib: CHUNK_SIZES_MIB@[i % 7],
            },
    )
}

/// All the cases of the test matrix.
pub fn all_cases() -> (cases: Vec<BenchmarkCase>)
    ensures
        cases@ == matrix(),
{
    let mut cases: Vec<BenchmarkCase> = Vec::new();
    let operations: [Operation; 2] = [Operation::Upload, Operation::Download];
    let mut o: usize = 0;
    while o < 2
        invariant
            o <= 2,
            operations@ == seq![Operation::Upload, Operation::Download],
            cases@ == matrix().take(21 * o as int),
        decreases 2 - o,
    {
        let mut f: usize = 0;
        while f < 3
            invariant
                o < 2,
                f <= 3,
                operations@ == seq![Operation::Upload, Operation::Download],
                cases@ == matrix().take(21 * o as int + 7 * f as int),
            decreases 3 - f,
        {
            let mut c: usize = 0;
            while c < 7
                invariant
                    o < 2,
                    f < 3,
                    c <= 7,
                    operations@ == seq![Operation::Upload, Operation::Download],
                    cases@ == matrix().take(21 * o as int + 7 * f as int + c as int),
                decreases 7 - c,
            {
                let case = BenchmarkCase {
                    operation: operations[o],
                    file_size_mib: FILE_SIZES_MIB[f],
                    chunk_size_mib: CHUNK_SIZES_MIB[c],
                };
                cases.push(case);
                c = c + 1;
                proof {
                    let i = 21 * o as int + 7 * f as int + c as int - 1;
                    assert(i / 7 == 3 * o + f && i % 7 == c - 1);
                    assert((i / 7) % 3 == f);
                    assert(matrix()[i] == case);
                    assert(matrix().take(i + 1) =~= matrix().take(i).push(case));
                }
            }
            f = f + 1;
        }
        o = o + 1;
    }
    proof {
        assert(matrix().take(42) =~= matrix());
    }
    cases
}

pub proof fn lemma_sizes()
    ensures
        FILE_SIZES_MIB@ == seq![10u64, 100, 1000],
        CHUNK_SIZES_MIB@ == seq![1u64, 2, 4, 8, 16, 32, 64],
{
    assert(FILE_SIZES_MIB@ =~= seq![10u64, 100, 1000]);
    assert(CHUNK_SIZES_MIB@ =~= seq![1u64, 2, 4, 8, 16, 32, 64]);
}

/// The matrix has 42 cases, no two of them the same: one for every operation with every file size
/// and every chunk size.
pub proof fn lemma_matrix_complete()
    ensures
        matrix().len() == 42,
        matrix().no_duplicates(),
        forall|case: BenchmarkCase| #[trigger]
            matrix().contains(case) <==> FILE_SIZES_MIB@.contains(case.file_size_mib)
                && CHUNK_SIZES_MIB@.contains(case.chunk_size_mib),
{
    lemma_sizes();
    assert forall|i: int, j: int|
        0 <= i < 42 && 0 <= j < 42 && i != j implies matrix()[i] != matrix()[j] by {
        let (a, b) = (matrix()[i], matrix()[j]);
        if a == b {
            assert((i / 7) % 3 == (j / 7) % 3);
            assert(i % 7 == j % 7);
            assert((i < 21) == (j < 21));
        }
    }
    assert forall|case: BenchmarkCase|
        FILE_SIZES_MIB@.contains(case.file_size_mib) && CHUNK_SIZES_MIB@.contains(
            case.chunk_size_mib,
        ) implies #[trigger] matrix().contains(case) by {
        let f = choose|f: int| 0 <= f < 3 && FILE_SIZES_MIB@[f] == case.file_size_mib;
        let c = choose|c: int| 0 <= c < 7 && CHUNK_SIZES_MIB@[c] == case.chunk_size_mib;
        let i = 7 * f + c + if case.operation == Operation::Upload {
            0int
        } else {
            21int
        };
        assert((i / 7) % 3 == f && i % 7 == c);
        assert(matrix()[i] == case);
    }
    assert forall|case: BenchmarkCase| #[trigger] matrix().contains(case) implies
        FILE_SIZES_MIB@.contains(case.file_size_mib) && CHUNK_SIZES_MIB@.contains(
            case.chunk_size_mib,
        ) by {
        let i = choose|i: int| 0 <= i < 42 && matrix()[i] == case;
        assert(FILE_SIZES_MIB@[(i / 7) % 3] == case.file_size_mib);
        assert(CHUNK_SIZES_MIB@[i % 7] == case.chunk_size_mib);
    }
}

/// The cases of the matrix by their fields.
pub proof fn lemma_matrix_members(case: BenchmarkCase)
    ensures
        matrix().contains(case) <==> {
            &&& case.file_size_mib == 10 || case.file_size_mib == 100 || case.file_size_mib == 1000
            &&& case.chunk_size_mib == 1 || case.chunk_size_mib == 2 || case.chunk_size_mib == 4
                || case.chunk_size_mib == 8 || case.chunk_size_mib == 16 || case.chunk_size_mib == 32
                || case.chunk_size_mib == 64
        },
{
    lemma_matrix_complete();
    lemma_sizes();
    let (files, chunks) = (seq![10u64, 100, 1000], seq![1u64, 2, 4, 8, 16, 32, 64]);
    assert(files[0] == 10 && files[1] == 100 && files[2] == 1000);
    assert(chunks[0] == 1 && chunks[1] == 2 && chunks[2] == 4 && chunks[3] == 8);
    assert(chunks[4] == 16 && chunks[5] == 32 && chunks[6] == 64);
    assert(matrix().contains(case) <==> files.contains(case.file_size_mib) && chunks.contains(
        case.chunk_size_mib,
    ));
}

/// The matrix goes by operation, uploads first, then file size, then chunk size.
pub proof fn lemma_matrix_order(i: int, j: int)
    requires
        0 <= i < j < 42,
    ensures
        ({
            let (a, b) = (matrix()[i], matrix()[j]);
            ||| a.operation == Operation::Upload && b.operation == Operation::Download
            ||| a.operation == b.operation && a.file_size_mib < b.file_size_mib
            ||| a.operation == b.operation && a.file_size_mib == b.file_size_mib
                && a.chunk_size_mib < b.chunk_size_mib
        }),
        10 <= matrix()[i].file_size_mib <= 1000,
        1 <= matrix()[i].chunk_size_mib <= 64,
        10 <= matrix()[j].file_size_mib <= 1000,
        1 <= matrix()[j].chunk_size_mib <= 64,
{
    lemma_sizes();
    let (p, q) = ((i / 7) % 3, (j / 7) % 3);
    let (c, d) = (i % 7, j % 7);
    assert(i == (if i < 21 { 0int } else { 21 }) + 7 * p + c);
    assert(j == (if j < 21 { 0int } else { 21 }) + 7 * q + d);
}

/// A case of the matrix transfers from 10 to 1000 MiB in chunks of 1 to 64 MiB.
pub proof fn lemma_matrix_sizes(i: int)
    requires
        0 <= i < matrix().len(),
    ensures
        10 <= matrix()[i].file_size_mib <= 1000,
        1 <= matrix()[i].chunk_size_mib <= 64,
{
    lemma_sizes();
}

} // verus!
