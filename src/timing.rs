//! GPU timestamp pairs around the render pass.

use vstd::prelude::*;

verus! {

/// Timestamp queries per frame: the start and the end of the render pass.
pub const NUM_QUERIES: u64 = 2;

/// The raw start and end timestamps of one render pass, in GPU ticks.
#[derive(Copy, Clone, Debug)]
pub struct RawQueryResults {
    pub render_start_end_timestamps: [u64; 2],
}

impl RawQueryResults {
    /// The pair read back from the query buffer, start first.
    pub fn from_raw_results(timestamps: Vec<u64>) -> (r: RawQueryResults)
        requires
            timestamps@.len() == NUM_QUERIES,
        ensures
            r.render_start_end_timestamps@ == timestamps@,
    {
        let r = RawQueryResults { render_start_end_timestamps: [timestamps[0], timestamps[1]] };
        assert(r.render_start_end_timestamps@ =~= timestamps@);
        r
    }

    /// Ticks from start to end; the counter may wrap around between the two.
    pub fn elapsed_ticks(&self) -> (r: u64)
        ensures
            r as int == (self.render_start_end_timestamps@[1] as int - self.render_start_end_timestamps@[0] as int
                + 0x1_0000_0000_0000_0000) % 0x1_0000_0000_0000_0000,
    {
        let start = self.render_start_end_timestamps[0];
        let end = self.render_start_end_timestamps[1];
        if end >= start {
            end - start
        } else {
            (u64::MAX - start) + end + 1
        }
    }
}

} // verus!
