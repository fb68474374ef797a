use vstd::prelude::*;

verus! {

/// Turns an `Option` inside out: a present value becomes the error.
pub(crate) trait OptionPolyfill<T> {
    fn err_or<U>(self, ok: U) -> Result<U, T>;

    fn err_or_else<U, F>(self, ok: F) -> Result<U, T> where F: FnOnce() -> U
        requires
            call_requires(ok, ()),
    ;
}

impl<T> OptionPolyfill<T> for Option<T> {
    fn err_or<U>(self, ok: U) -> (res: Result<U, T>)
        ensures
            res == match self {
                Some(err) => Err::<U, T>(err),
                None => Ok(ok),
            },
    {
        match self {
            Some(err) => Err(err),
            None => Ok(ok),
        }
    }

    fn err_or_else<U, F>(self, ok: F) -> (res: Result<U, T>) where F: FnOnce() -> U
        ensures
            self matches Some(err) ==> res == Err::<U, T>(err),
            self is None ==> (res matches Ok(v) && call_ensures(ok, (), v)),
    {
        match self {
            Some(err) => Err(err),
            None => Ok(ok()),
        }
    }
}

} // verus!
