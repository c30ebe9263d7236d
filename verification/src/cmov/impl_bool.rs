use vstd::prelude::*;
use super::CMov;
use super::cmov_bool;

verus! {

impl CMov for bool {
    fn cnd_select(cond: bool, a: &Self, b: &Self) -> (r: Self) {
        let mut res = *a;
        cmov_bool(cond, &mut res, b);
        res
    }

    fn cmov(&mut self, cond: bool, src: &Self) {
        cmov_bool(cond, self, src);
    }
}

} // verus!
