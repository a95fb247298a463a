use vstd::prelude::*;

verus! {

/// An inclusive range of robot counts walked with a fixed stride.
pub struct RangeU32 {
    pub min: u32,
    pub max: u32,
    pub step: u32,
}

/// How many values `min, min + step, ...` stay at or below `max`.
pub open spec fn stepped_count(min: u32, max: u32, step: u32) -> nat
    recommends
        step > 0,
{
    if min <= max {
        ((max - min) / (step as int) + 1) as nat
    } else {
        0
    }
}

/// The values `min, min + step, min + 2 * step, ...` that stay at or below `max`.
pub open spec fn stepped_values(min: u32, max: u32, step: u32) -> Seq<u32>
    recommends
        step > 0,
{
    Seq::new(stepped_count(min, max, step), |k: int| (min + k * step) as u32)
}

impl RangeU32 {
    /// The values `min..=max` taken every `step`, in increasing order.
    pub open spec fn values(&self) -> Seq<u32> {
        stepped_values(self.min, self.max, self.step)
    }

    /// The values of the range, first `min`, then every `step` up to `max`.
    /// A stride of zero is refused (`step_by(0)` panics), so `step` must be positive.
    pub fn iter(&self) -> (res: Vec<u32>)
        requires
            self.step > 0,
        ensures
            res@ == self.values(),
    {
        let mut out: Vec<u32> = Vec::new();
        if self.min > self.max {
            return out;
        }
        let min = self.min;
        let max = self.max;
        let step = self.step;
        let mut v: u32 = min;
        let ghost mut i: int = 0;
        loop
            invariant_except_break
                out@.len() == i,
                forall|k: int| 0 <= k < i ==> #[trigger] out@[k] == (min + k * step) as u32,
            invariant
                step > 0,
                min <= v <= max,
                v == min + i * step,
                0 <= i,
            ensures
                out@.len() == i + 1,
                forall|k: int| 0 <= k <= i ==> #[trigger] out@[k] == (min + k * step) as u32,
                v == min + i * step,
                max - v < step,
            decreases max - v,
        {
            out.push(v);
            if max - v < step {
                break;
            }
            v = v + step;
            proof {
                assert(v == min + (i + 1) * step) by (nonlinear_arith)
                    requires
                        v == min + i * step + step,
                ;
                i = i + 1;
            }
        }
        proof {
            let d = (max - min) as int;
            assert(d / (step as int) == i) by (nonlinear_arith)
                requires
                    d == i * step + (max - v),
                    0 <= max - v < step,
                    0 <= i,
            ;
            assert(out@ =~= self.values());
        }
        out
    }
}

/// A range with a positive stride walks from `min` up to `max` and no further:
/// it is empty exactly when `min > max`; otherwise it starts at `min`, each value
/// is `step` more than the one before, every value lies in `min..=max`, and the
/// last one is less than `step` below `max`, so no further value fits.
pub proof fn law_range_walk(r: RangeU32)
    requires
        r.step > 0,
    ensures
        r.values().len() == 0 <==> r.min > r.max,
        r.min <= r.max ==> r.values()[0] == r.min,
        forall|k: int|
            0 <= k < r.values().len() ==> r.min <= #[trigger] r.values()[k] <= r.max,
        forall|k: int|
            0 <= k < r.values().len() - 1 ==> #[trigger] r.values()[k + 1] == r.values()[k]
                + r.step,
        r.min <= r.max ==> r.max - r.values().last() < r.step,
{
    let v = r.values();
    if r.min <= r.max {
        let d = (r.max - r.min) as int;
        let q = d / (r.step as int);
        assert(0 <= q * r.step <= d < q * r.step + r.step) by (nonlinear_arith)
            requires
                q == d / (r.step as int),
                r.step > 0,
                d >= 0,
        ;
        assert forall|k: int| 0 <= k < v.len() implies r.min <= #[trigger] v[k] <= r.max by {
            assert(0 <= k * r.step <= q * r.step) by (nonlinear_arith)
                requires
                    0 <= k <= q,
                    r.step > 0,
            ;
        }
        assert forall|k: int| 0 <= k < v.len() - 1 implies #[trigger] v[k + 1] == v[k] + r.step by {
            assert((k + 1) * r.step == k * r.step + r.step) by (nonlinear_arith);
            assert(0 <= k * r.step && (k + 1) * r.step <= q * r.step) by (nonlinear_arith)
                requires
                    0 <= k,
                    k + 1 <= q,
                    r.step > 0,
            ;
            assert(v[k] == r.min + k * r.step);
            assert(v[k + 1] == r.min + (k + 1) * r.step);
        }
        assert(v.len() == q + 1);
        assert(v.last() == v[q]);
        assert(v[q] == r.min + q * r.step);
    }
}

/// Settings of the run scheduler itself.
pub struct RunnerConfig {
    pub runs_per_config: usize,
    pub parallel_jobs: usize,
    pub output_dir: String,
}

} // verus!
