use vstd::prelude::*;

verus! {

/// DOS compatible date.
#[derive(Clone, Copy, Debug)]
pub struct Date {
    pub year: u16,
    pub month: u16,
    pub day: u16,
}

impl Date {
    /// Every field fits the bits that the packed form gives it.
    pub open spec fn wf(&self) -> bool {
        &&& 1980 <= self.year <= 2107
        &&& self.month < 16
        &&& self.day < 32
    }

    /// The date that a packed 16-bit value stands for.
    pub open spec fn unpacked(dos_date: u16) -> Date {
        Date {
            year: (1980 + dos_date / 512) as u16,
            month: ((dos_date / 32) % 16) as u16,
            day: (dos_date % 32) as u16,
        }
    }

    /// The packed 16-bit value of a well-formed date.
    pub open spec fn packed(&self) -> int {
        (self.year - 1980) * 512 + self.month * 32 + self.day
    }

    pub fn from_u16(dos_date: u16) -> (r: Date)
        ensures
            r == Self::unpacked(dos_date),
            r.wf(),
            r.packed() == dos_date,
    {
        assert(dos_date >> 9 == dos_date / 512) by (bit_vector);
        assert((dos_date >> 5) & 0xF == (dos_date / 32) % 16) by (bit_vector);
        assert(dos_date & 0x1F == dos_date % 32) by (bit_vector);
        let year: u16 = (dos_date >> 9) + 1980;
        let month: u16 = (dos_date >> 5) & 0xF;
        let day: u16 = dos_date & 0x1F;
        Date { year, month, day }
    }

    pub fn to_u16(&self) -> (r: u16)
        requires
            self.wf(),
        ensures
            r == self.packed(),
            Self::unpacked(r) == *self,
    {
        let y: u16 = self.year - 1980;
        let m: u16 = self.month;
        let d: u16 = self.day;
        assert(((y << 9) | (m << 5) | d) == y * 512 + m * 32 + d) by (bit_vector)
            requires
                y < 128,
                m < 16,
                d < 32,
        ;
        (y << 9) | (m << 5) | d
    }
}

/// DOS compatible time.
#[derive(Clone, Copy, Debug)]
pub struct Time {
    pub hour: u16,
    pub min: u16,
    pub sec: u16,
}

impl Time {
    /// Every field fits the bits that the packed form gives it.
    pub open spec fn wf(&self) -> bool {
        &&& self.hour < 32
        &&& self.min < 64
        &&& self.sec < 64
    }

    /// The time that a packed 16-bit value stands for; seconds come in steps of two.
    pub open spec fn unpacked(dos_time: u16) -> Time {
        Time {
            hour: (dos_time / 2048) as u16,
            min: ((dos_time / 32) % 64) as u16,
            sec: ((dos_time % 32) * 2) as u16,
        }
    }

    /// The packed 16-bit value of a well-formed time; an odd second is rounded down.
    pub open spec fn packed(&self) -> int {
        self.hour * 2048 + self.min * 32 + self.sec / 2
    }

    pub fn from_u16(dos_time: u16) -> (r: Time)
        ensures
            r == Self::unpacked(dos_time),
            r.wf(),
            r.packed() == dos_time,
    {
        assert(dos_time >> 11 == dos_time / 2048) by (bit_vector);
        assert((dos_time >> 5) & 0x3F == (dos_time / 32) % 64) by (bit_vector);
        assert(dos_time & 0x1F == dos_time % 32) by (bit_vector);
        let hour: u16 = dos_time >> 11;
        let min: u16 = (dos_time >> 5) & 0x3F;
        let sec: u16 = (dos_time & 0x1F) * 2;
        Time { hour, min, sec }
    }

    pub fn to_u16(&self) -> (r: u16)
        requires
            self.wf(),
        ensures
            r == self.packed(),
            Self::unpacked(r) == (Time { sec: (self.sec - self.sec % 2) as u16, ..*self }),
    {
        let h: u16 = self.hour;
        let m: u16 = self.min;
        let s: u16 = self.sec / 2;
        assert(((h << 11) | (m << 5) | s) == h * 2048 + m * 32 + s) by (bit_vector)
            requires
                h < 32,
                m < 64,
                s < 32,
        ;
        (h << 11) | (m << 5) | s
    }
}

/// DOS compatible date and time.
#[derive(Clone, Copy, Debug)]
pub struct DateTime {
    pub date: Date,
    pub time: Time,
}

impl DateTime {
    pub open spec fn wf(&self) -> bool {
        self.date.wf() && self.time.wf()
    }

    /// The date and time that a pair of packed values stands for.
    pub open spec fn unpacked(dos_date: u16, dos_time: u16) -> DateTime {
        DateTime { date: Date::unpacked(dos_date), time: Time::unpacked(dos_time) }
    }

    pub fn from_u16(dos_date: u16, dos_time: u16) -> (r: DateTime)
        ensures
            r == Self::unpacked(dos_date, dos_time),
            r.wf(),
    {
        DateTime { date: Date::from_u16(dos_date), time: Time::from_u16(dos_time) }
    }
}

} // verus!
