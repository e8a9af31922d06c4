use vstd::prelude::*;

verus! {

/// Errors produced by the heat-spectral crate.
///
/// `T` is the scalar type of the caller's weights and times; it only shows
/// up in the rejected diffusion time of `NegativeTau`.
#[derive(Debug, PartialEq)]
pub enum HeatError<T> {
    /// A node index is not below the number of nodes.
    InvalidNode { index: usize, n: usize },
    /// The Fiedler value needs at least two nodes.
    TooFewNodes,
    /// The graph is disconnected.
    Disconnected,
    /// The diffusion time is negative.
    NegativeTau { tau: T },
    /// The Chebyshev approximation order is zero.
    InvalidOrder { order: usize },
    /// A signal does not have one entry per node.
    SignalMismatch { len: usize, n: usize },
}

/// Checks that a signal of length `len` fits a graph on `n` nodes.
pub fn check_signal_len<T>(len: usize, n: usize) -> (r: Result<(), HeatError<T>>)
    ensures
        r is Ok <==> len == n,
        r is Err ==> r == Err::<(), HeatError<T>>(HeatError::SignalMismatch { len, n }),
{
    if len != n {
        return Err(HeatError::SignalMismatch { len, n });
    }
    Ok(())
}

/// Checks the parameters of a heat kernel: a negative diffusion time is
/// refused first, then a zero approximation order.
///
/// `tau_is_negative` is the caller's comparison `tau < 0` in its own scalar
/// type; `tau` is carried into the error unchanged.
pub fn check_kernel_params<T>(tau: T, tau_is_negative: bool, order: usize) -> (r: Result<(), HeatError<T>>)
    ensures
        r is Ok <==> !tau_is_negative && order != 0,
        tau_is_negative ==> r == Err::<(), HeatError<T>>(HeatError::NegativeTau { tau }),
        !tau_is_negative && order == 0 ==> r == Err::<(), HeatError<T>>(HeatError::InvalidOrder { order }),
{
    if tau_is_negative {
        return Err(HeatError::NegativeTau { tau });
    }
    if order == 0 {
        return Err(HeatError::InvalidOrder { order });
    }
    Ok(())
}

/// Checks the arguments of a spectral filter on a graph with `n` nodes: the
/// signal length is checked first, then the kernel parameters.
pub fn check_filter_args<T>(n: usize, len: usize, tau: T, tau_is_negative: bool, order: usize) -> (r: Result<(), HeatError<T>>)
    ensures
        r is Ok <==> len == n && !tau_is_negative && order != 0,
        len != n ==> r == Err::<(), HeatError<T>>(HeatError::SignalMismatch { len, n }),
        len == n && tau_is_negative ==> r == Err::<(), HeatError<T>>(HeatError::NegativeTau { tau }),
        len == n && !tau_is_negative && order == 0 ==> r == Err::<(), HeatError<T>>(
            HeatError::InvalidOrder { order },
        ),
{
    if len != n {
        return Err(HeatError::SignalMismatch { len, n });
    }
    check_kernel_params(tau, tau_is_negative, order)
}

/// Checks that a graph with `n` nodes is large enough for a Fiedler value.
pub fn check_fiedler_nodes<T>(n: usize) -> (r: Result<(), HeatError<T>>)
    ensures
        r is Ok <==> n >= 2,
        r is Err ==> r == Err::<(), HeatError<T>>(HeatError::TooFewNodes),
{
    if n < 2 {
        return Err(HeatError::TooFewNodes);
    }
    Ok(())
}

} // verus!
