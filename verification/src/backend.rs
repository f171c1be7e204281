//! Backend identity, memory layout, execution policy, operation descriptors
//! and the errors a compute backend reports.

use vstd::prelude::*;

use crate::text::{decimal, push_str, push_usize};

verus! {

/// Device type for backend selection.
#[derive(Debug, Clone, Copy, PartialEq, Eq, Structural)]
pub enum DeviceType {
    /// Host CPU.
    Cpu,
    /// NVIDIA GPU via CUDA.
    Cuda,
    /// Apple GPU via Metal.
    Metal,
}

/// Memory layout order for tensor data.
#[derive(Debug, Clone, Copy, PartialEq, Eq, Structural)]
pub enum MemoryOrder {
    /// Row-major (C order): last axis varies fastest.
    RowMajor,
    /// Column-major (Fortran order): first axis varies fastest.
    ColumnMajor,
}

/// Per-call execution policy for a compute backend operation.
///
/// `Parallel(0)` means "backend auto"; `Parallel(n)` with `n > 0` is a
/// target worker count; `Sequential` forces single-threaded execution.
#[derive(Copy, Clone, Debug, PartialEq, Eq, Structural)]
pub enum ExecPolicy {
    /// Force single-threaded execution.
    Sequential,
    /// Run in parallel with the given target worker count; `0` means
    /// "backend auto".
    Parallel(usize),
}

/// GEMM operation descriptor: `C = alpha * op(A) * op(B) + beta * C`.
///
/// Data layout (A, B, C slices) is specified by the `order` field.
pub struct GemmDescriptor<'a, T> {
    /// Rows of `op(A)` and of `C`.
    pub m: usize,
    /// Columns of `op(B)` and of `C`.
    pub n: usize,
    /// Contracted dimension: columns of `op(A)` and rows of `op(B)`.
    pub k: usize,
    /// Scalar applied to the `op(A) * op(B)` product.
    pub alpha: T,
    /// Operand `A` (`m×k`, or `k×m` when `trans_a`).
    pub a: &'a [T],
    /// Operand `B` (`k×n`, or `n×k` when `trans_b`).
    pub b: &'a [T],
    /// Scalar applied to the existing `C` before accumulation.
    pub beta: T,
    /// Operand / output `C` (`m×n`), overwritten with the result.
    pub c: &'a mut [T],
    /// Whether `A` is transposed, i.e. `op(A) = Aᵀ`.
    pub trans_a: bool,
    /// Whether `B` is transposed, i.e. `op(B) = Bᵀ`.
    pub trans_b: bool,
    /// Memory layout of the `A` / `B` / `C` slices.
    pub order: MemoryOrder,
    /// Per-call execution policy.
    pub policy: ExecPolicy,
}

/// Transpose operation descriptor.
pub struct TransposeDescriptor<'a, T> {
    /// Input tensor in `shape` order.
    pub input: &'a [T],
    /// Output buffer receiving the permuted tensor.
    pub output: &'a mut [T],
    /// Shape of the input tensor.
    pub shape: &'a [usize],
    /// Axis permutation: output axis `i` is input axis `perm[i]`.
    pub perm: &'a [usize],
    /// Memory layout of the `input` / `output` slices.
    pub order: MemoryOrder,
    /// Apply element-wise complex conjugation during transpose; no-op for
    /// real types.
    pub conj: bool,
    /// Per-call execution policy.
    pub policy: ExecPolicy,
}

/// Thin QR decomposition descriptor: `A = Q * R`, with `Q` `m×k` and `R`
/// `k×n` where `k = min(m, n)`.
pub struct QrDescriptor<'a, T> {
    /// Rows of `A`.
    pub m: usize,
    /// Columns of `A`.
    pub n: usize,
    /// Input matrix `A` (`m×n`).
    pub a: &'a [T],
    /// Output orthonormal factor `Q` (`m×k`).
    pub q: &'a mut [T],
    /// Output upper-triangular factor `R` (`k×n`).
    pub r: &'a mut [T],
    /// Memory layout of the matrix slices.
    pub order: MemoryOrder,
    /// Per-call execution policy.
    pub policy: ExecPolicy,
}

/// Thin LQ decomposition descriptor: `A = L * Q`, with `L` `m×k` and `Q`
/// `k×n` where `k = min(m, n)`.
pub struct LqDescriptor<'a, T> {
    /// Rows of `A`.
    pub m: usize,
    /// Columns of `A`.
    pub n: usize,
    /// Input matrix `A` (`m×n`).
    pub a: &'a [T],
    /// Output lower-triangular factor `L` (`m×k`).
    pub l: &'a mut [T],
    /// Output orthonormal factor `Q` (`k×n`).
    pub q: &'a mut [T],
    /// Memory layout of the matrix slices.
    pub order: MemoryOrder,
    /// Per-call execution policy.
    pub policy: ExecPolicy,
}

/// Linear solve descriptor: `A X = B` for an `n×n` matrix `A` and an
/// `n×nrhs` right-hand side `B`.
pub struct SolveDescriptor<'a, T> {
    /// Dimension of the square coefficient matrix `A`.
    pub n: usize,
    /// Number of right-hand-side columns.
    pub nrhs: usize,
    /// Coefficient matrix `A` (`n×n`).
    pub a: &'a [T],
    /// Right-hand side `B` (`n×nrhs`).
    pub b: &'a [T],
    /// Output solution `X` (`n×nrhs`).
    pub x: &'a mut [T],
    /// Memory layout of the matrix slices.
    pub order: MemoryOrder,
    /// Per-call execution policy.
    pub policy: ExecPolicy,
}

/// Error originating from a compute backend.
#[derive(Debug, Clone)]
pub enum BackendError {
    /// The backend does not support this operation.
    NotSupported(String),
    /// The descriptor passed to the backend violates its contract.
    InvalidArgument(String),
    /// The computation failed at runtime.
    ExecutionFailed(String),
}

/// The text a backend error displays.
pub open spec fn backend_error_text(e: BackendError) -> Seq<char> {
    match e {
        BackendError::NotSupported(s) => "Not supported: "@ + s@,
        BackendError::InvalidArgument(s) => "Invalid argument: "@ + s@,
        BackendError::ExecutionFailed(s) => "Execution failed: "@ + s@,
    }
}

impl BackendError {
    /// The message this error displays: its kind, then its detail.
    pub fn message(&self) -> (r: String)
        ensures
            r@ == backend_error_text(*self),
    {
        match self {
            BackendError::NotSupported(s) => {
                let mut r = "Not supported: ".to_owned();
                push_str(&mut r, s.as_str());
                r
            },
            BackendError::InvalidArgument(s) => {
                let mut r = "Invalid argument: ".to_owned();
                push_str(&mut r, s.as_str());
                r
            },
            BackendError::ExecutionFailed(s) => {
                let mut r = "Execution failed: ".to_owned();
                push_str(&mut r, s.as_str());
                r
            },
        }
    }
}

/// Error raised while parsing or validating an Einstein-notation
/// contraction.
#[derive(Debug, Clone, PartialEq)]
pub enum ContractionError {
    /// The notation string could not be parsed as valid Einstein notation.
    InvalidNotation(String),
    /// A tensor's label count does not match its rank.
    LabelMismatch {
        /// Number of labels expected (the tensor's rank).
        expected: usize,
        /// Number of labels actually supplied.
        actual: usize,
        /// Which operand the mismatch occurred on.
        tensor: String,
    },
    /// A shared label is bound to different extents on the two operands.
    DimensionMismatch {
        /// The label whose extents disagree.
        label: String,
        /// Extent of the label on the left operand.
        lhs_dim: usize,
        /// Extent of the label on the right operand.
        rhs_dim: usize,
    },
    /// A referenced label is absent from the named tensor.
    LabelNotFound {
        /// The label that was not found.
        label: String,
        /// Which operand was searched.
        tensor: String,
    },
    /// The output specification repeats a label.
    DuplicateOutputLabel {
        /// The label that appears more than once in the output.
        label: String,
    },
}

/// The text a contraction error displays.
pub open spec fn contraction_error_text(e: ContractionError) -> Seq<char> {
    match e {
        ContractionError::InvalidNotation(s) => "Invalid Einstein notation: "@ + s@,
        ContractionError::LabelMismatch { expected, actual, tensor } => tensor@
            + " tensor: expected "@ + decimal(expected as nat) + " labels, got "@ + decimal(
            actual as nat,
        ),
        ContractionError::DimensionMismatch { label, lhs_dim, rhs_dim } => "Dimension mismatch for '"@
            + label@ + "': lhs="@ + decimal(lhs_dim as nat) + ", rhs="@ + decimal(rhs_dim as nat),
        ContractionError::LabelNotFound { label, tensor } => "Label '"@ + label@ + "' not found in "@
            + tensor@ + " tensor"@,
        ContractionError::DuplicateOutputLabel { label } => "Duplicate label '"@ + label@
            + "' in output"@,
    }
}

impl ContractionError {
    /// The message this error displays.
    pub fn message(&self) -> (r: String)
        ensures
            r@ == contraction_error_text(*self),
    {
        match self {
            ContractionError::InvalidNotation(s) => {
                let mut r = "Invalid Einstein notation: ".to_owned();
                push_str(&mut r, s.as_str());
                r
            },
            ContractionError::LabelMismatch { expected, actual, tensor } => {
                let mut r = tensor.clone();
                push_str(&mut r, " tensor: expected ");
                push_usize(&mut r, *expected);
                push_str(&mut r, " labels, got ");
                push_usize(&mut r, *actual);
                r
            },
            ContractionError::DimensionMismatch { label, lhs_dim, rhs_dim } => {
                let mut r = "Dimension mismatch for '".to_owned();
                push_str(&mut r, label.as_str());
                push_str(&mut r, "': lhs=");
                push_usize(&mut r, *lhs_dim);
                push_str(&mut r, ", rhs=");
                push_usize(&mut r, *rhs_dim);
                r
            },
            ContractionError::LabelNotFound { label, tensor } => {
                let mut r = "Label '".to_owned();
                push_str(&mut r, label.as_str());
                push_str(&mut r, "' not found in ");
                push_str(&mut r, tensor.as_str());
                push_str(&mut r, " tensor");
                r
            },
            ContractionError::DuplicateOutputLabel { label } => {
                let mut r = "Duplicate label '".to_owned();
                push_str(&mut r, label.as_str());
                push_str(&mut r, "' in output");
                r
            },
        }
    }
}

/// The host-CPU compute backend.
#[derive(Debug, Clone, Copy)]
pub struct CpuBackend;

impl Default for CpuBackend {
    /// A CPU backend.
    fn default() -> (r: Self) {
        CpuBackend::new()
    }
}

impl CpuBackend {
    /// A CPU backend.
    pub fn new() -> (r: Self) {
        CpuBackend
    }

    /// The backend's name, `"cpu"`.
    pub fn name(&self) -> (r: &'static str)
        ensures
            r@ == "cpu"@,
    {
        "cpu"
    }

    /// The device the backend runs on, the host CPU.
    pub fn device_type(&self) -> (r: DeviceType)
        ensures
            r == DeviceType::Cpu,
    {
        DeviceType::Cpu
    }

    /// The memory order the backend's kernels take, row-major.
    pub fn preferred_order(&self) -> (r: MemoryOrder)
        ensures
            r == MemoryOrder::RowMajor,
    {
        MemoryOrder::RowMajor
    }

    /// The backend is always available.
    pub fn is_available(&self) -> (r: bool)
        ensures
            r,
    {
        true
    }
}

} // verus!
