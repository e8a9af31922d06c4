use heat_spectral::error::{check_fiedler_nodes, check_filter_args, check_kernel_params, check_signal_len};
use heat_spectral::matrix::select_columns;
use heat_spectral::HeatError;

#[test]
fn signal_length_must_match() {
    assert_eq!(check_signal_len::<f64>(3, 3), Ok(()));
    assert_eq!(check_signal_len::<f64>(2, 3), Err(HeatError::SignalMismatch { len: 2, n: 3 }));
}

#[test]
fn kernel_params_refuse_negative_tau_first() {
    assert_eq!(check_kernel_params(0.0, false, 5), Ok(()));
    assert_eq!(check_kernel_params(-1.0, true, 0), Err(HeatError::NegativeTau { tau: -1.0 }));
    assert_eq!(check_kernel_params(1.0, false, 0), Err(HeatError::InvalidOrder { order: 0 }));
}

#[test]
fn filter_args_checked_in_order() {
    assert_eq!(check_filter_args(5, 5, 1.0, false, 10), Ok(()));
    assert_eq!(
        check_filter_args(5, 4, -1.0, true, 0),
        Err(HeatError::SignalMismatch { len: 4, n: 5 })
    );
    assert_eq!(check_filter_args(5, 5, -2.5, true, 0), Err(HeatError::NegativeTau { tau: -2.5 }));
    assert_eq!(check_filter_args(5, 5, 2.5, false, 0), Err(HeatError::InvalidOrder { order: 0 }));
}

#[test]
fn fiedler_needs_two_nodes() {
    assert_eq!(check_fiedler_nodes::<f64>(1), Err(HeatError::TooFewNodes));
    assert_eq!(check_fiedler_nodes::<f64>(0), Err(HeatError::TooFewNodes));
    assert_eq!(check_fiedler_nodes::<f64>(2), Ok(()));
}

#[test]
fn columns_in_requested_order() {
    let v = vec![vec![1, 2, 3], vec![4, 5, 6], vec![7, 8, 9]];
    let cols = select_columns(&v, &vec![2, 0, 1]);
    assert_eq!(cols, vec![vec![3, 6, 9], vec![1, 4, 7], vec![2, 5, 8]]);
    assert_eq!(select_columns(&v, &vec![]), Vec::<Vec<i32>>::new());
}

// The refusals of the heat kernel, the Fiedler value and the diffusion
// simulator, decided by the checks above on the same inputs.

#[test]
fn test_heat_kernel_negative_tau_error() {
    let tau: f64 = -1.0;
    assert!(check_kernel_params(tau, tau < 0.0, 5).is_err());
}

#[test]
fn test_heat_kernel_zero_order_error() {
    let tau: f64 = 1.0;
    assert!(check_kernel_params(tau, tau < 0.0, 0).is_err());
}

#[test]
fn test_heat_kernel_signal_mismatch() {
    let g: heat_spectral::Graph<f64> = heat_spectral::Graph::new(3);
    let x = [1.0, 2.0];
    assert!(check_signal_len::<f64>(x.len(), g.node_count()).is_err());
}

#[test]
fn test_fiedler_too_few_nodes() {
    let g: heat_spectral::Graph<f64> = heat_spectral::Graph::new(1);
    assert!(check_fiedler_nodes::<f64>(g.node_count()).is_err());
}

#[test]
fn test_diffusion_signal_mismatch() {
    let g: heat_spectral::Graph<f64> = heat_spectral::Graph::new(3);
    assert!(check_signal_len::<f64>([1.0].len(), g.node_count()).is_err());
}
