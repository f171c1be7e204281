use ariadnetor::backend::{BackendError, ContractionError, CpuBackend, DeviceType, ExecPolicy, MemoryOrder};

#[test]
fn test_backend_metadata() {
    let backend = CpuBackend::new();
    assert_eq!(backend.name(), "cpu");
    assert_eq!(backend.device_type(), DeviceType::Cpu);
    assert!(backend.is_available());
    assert_eq!(backend.preferred_order(), MemoryOrder::RowMajor);
}

#[test]
fn exec_policy_values() {
    assert_eq!(ExecPolicy::Parallel(0), ExecPolicy::Parallel(0));
    assert_ne!(ExecPolicy::Parallel(2), ExecPolicy::Sequential);
}

#[test]
fn backend_error_messages() {
    assert_eq!(BackendError::NotSupported("svd".to_string()).message(), "Not supported: svd");
    assert_eq!(BackendError::InvalidArgument("bad".to_string()).message(), "Invalid argument: bad");
    assert_eq!(
        BackendError::ExecutionFailed("no convergence".to_string()).message(),
        "Execution failed: no convergence"
    );
}

#[test]
fn contraction_error_messages() {
    assert_eq!(
        ContractionError::InvalidNotation("ij".to_string()).message(),
        "Invalid Einstein notation: ij"
    );
    assert_eq!(
        ContractionError::LabelMismatch { expected: 2, actual: 3, tensor: "lhs".to_string() }.message(),
        "lhs tensor: expected 2 labels, got 3"
    );
    assert_eq!(
        ContractionError::DimensionMismatch { label: "j".to_string(), lhs_dim: 3, rhs_dim: 5 }.message(),
        "Dimension mismatch for 'j': lhs=3, rhs=5"
    );
    assert_eq!(
        ContractionError::LabelNotFound { label: "k".to_string(), tensor: "rhs".to_string() }.message(),
        "Label 'k' not found in rhs tensor"
    );
    assert_eq!(
        ContractionError::DuplicateOutputLabel { label: "i".to_string() }.message(),
        "Duplicate label 'i' in output"
    );
}
