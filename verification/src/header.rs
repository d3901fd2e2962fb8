use vstd::prelude::*;

verus! {

/// A time stamp split into whole seconds and the nanoseconds past them.
#[derive(Debug, Clone, Copy, PartialEq, Eq, Structural)]
pub struct Time {
    /// [sec]
    sec: u64,
    /// [nsec]
    nanosec: u64,
}

impl Time {
    pub closed spec fn spec_sec(&self) -> u64 {
        self.sec
    }

    pub closed spec fn spec_nanosec(&self) -> u64 {
        self.nanosec
    }

    pub fn new(sec: u64, nanosec: u64) -> (time: Self)
        ensures
            time.spec_sec() == sec,
            time.spec_nanosec() == nanosec,
    {
        Self { sec, nanosec }
    }

    #[verifier::when_used_as_spec(spec_sec)]
    pub fn sec(&self) -> (sec: u64)
        ensures
            sec == self.spec_sec(),
    {
        self.sec
    }

    #[verifier::when_used_as_spec(spec_nanosec)]
    pub fn nanosec(&self) -> (nanosec: u64)
        ensures
            nanosec == self.spec_nanosec(),
    {
        self.nanosec
    }

    /// A stamp is no more than its two parts: stamps that agree in seconds
    /// and nanoseconds are equal.
    pub proof fn lemma_equal_by_parts(a: Time, b: Time)
        requires
            a.sec() == b.sec(),
            a.nanosec() == b.nanosec(),
        ensures
            a == b,
    {
    }
}

impl Default for Time {
    fn default() -> (time: Self)
        ensures
            time.sec() == 0,
            time.nanosec() == 0,
    {
        Self { sec: 0, nanosec: 0 }
    }
}

/// What accompanies a measurement: when it was taken and in which frame.
#[derive(Debug, Clone, PartialEq, Eq)]
pub struct Header {
    /// [sec]
    stamp: Time,
    /// frame_id
    frame_id: String,
}

impl Header {
    pub closed spec fn spec_stamp(&self) -> Time {
        self.stamp
    }

    /// The characters of the frame identifier.
    pub closed spec fn frame(&self) -> Seq<char> {
        self.frame_id@
    }

    pub fn new(stamp: Time, frame_id: String) -> (header: Self)
        ensures
            header.spec_stamp() == stamp,
            header.frame() == frame_id@,
    {
        Self { stamp, frame_id }
    }

    pub fn stamp(&self) -> (stamp: &Time)
        ensures
            *stamp == self.spec_stamp(),
    {
        &self.stamp
    }

    pub fn frame_id(&self) -> (frame_id: &str)
        ensures
            frame_id@ == self.frame(),
    {
        self.frame_id.as_str()
    }
}

impl Default for Header {
    fn default() -> (header: Self)
        ensures
            header.spec_stamp().sec() == 0,
            header.spec_stamp().nanosec() == 0,
            header.frame() == Seq::<char>::empty(),
    {
        Self { stamp: Time { sec: 0, nanosec: 0 }, frame_id: String::new() }
    }
}

} // verus!
