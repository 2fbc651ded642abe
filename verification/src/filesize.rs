use vstd::prelude::*;
use vstd::string::StringExecFns;

verus! {

pub const THOUSAND: u64 = 1_000;

pub const MILLION: u64 = 1_000_000;

pub const BILLION: u64 = 1_000_000_000;

pub const TRILLION: u64 = 1_000_000_000_000;

pub const QUADRILLION: u64 = 1_000_000_000_000_000;

/// Units of file size, each a thousandfold of the one before.
#[derive(Debug, Default, PartialEq, PartialOrd, Eq, Ord, Clone, Copy, Structural)]
pub enum FileSizeUnit {
    #[default]
    Byte,
    Kilobyte,
    Megabyte,
    Gigabyte,
    Terabyte,
    Petabyte,
}

impl FileSizeUnit {
    /// The unit's rank: which power of a thousand it stands for.
    pub open spec fn spec_rank(self) -> int {
        match self {
            FileSizeUnit::Byte => 0,
            FileSizeUnit::Kilobyte => 1,
            FileSizeUnit::Megabyte => 2,
            FileSizeUnit::Gigabyte => 3,
            FileSizeUnit::Terabyte => 4,
            FileSizeUnit::Petabyte => 5,
        }
    }

    /// The numeric rank used for unit conversion.
    fn variant_integer_id(&self) -> (r: u8)
        ensures
            r as int == self.spec_rank(),
    {
        match self {
            FileSizeUnit::Byte => 0,
            FileSizeUnit::Kilobyte => 1,
            FileSizeUnit::Megabyte => 2,
            FileSizeUnit::Gigabyte => 3,
            FileSizeUnit::Terabyte => 4,
            FileSizeUnit::Petabyte => 5,
        }
    }
}

/// The `k`-th power of a thousand.
pub open spec fn spec_pow1000(k: nat) -> int
    decreases k,
{
    if k == 0 {
        1
    } else {
        1000 * spec_pow1000((k - 1) as nat)
    }
}

/// Powers of a thousand are positive.
pub proof fn lemma_pow1000_pos(k: nat)
    ensures
        spec_pow1000(k) > 0,
    decreases k,
{
    if k > 0 {
        lemma_pow1000_pos((k - 1) as nat);
    }
}

/// The powers of a thousand up to the span of the units.
fn pow1000(k: u32) -> (r: u64)
    requires
        k <= 5,
    ensures
        r as int == spec_pow1000(k as nat),
{
    proof {
        assert(spec_pow1000(0) == 1);
        assert(spec_pow1000(1) == 1000);
        assert(spec_pow1000(2) == 1_000_000);
        assert(spec_pow1000(3) == 1_000_000_000);
        assert(spec_pow1000(4) == 1_000_000_000_000);
        assert(spec_pow1000(5) == 1_000_000_000_000_000);
    }
    match k {
        0 => 1,
        1 => 1_000,
        2 => 1_000_000,
        3 => 1_000_000_000,
        4 => 1_000_000_000_000,
        _ => 1_000_000_000_000_000,
    }
}

/// The name of the unit, plural unless the size is exactly one.
pub open spec fn spec_unit_string(unit: FileSizeUnit, size: u64) -> Seq<char> {
    if size == 1 {
        match unit {
            FileSizeUnit::Byte => "Byte"@,
            FileSizeUnit::Kilobyte => "Kilobyte"@,
            FileSizeUnit::Megabyte => "Megabyte"@,
            FileSizeUnit::Gigabyte => "Gigabyte"@,
            FileSizeUnit::Terabyte => "Terabyte"@,
            FileSizeUnit::Petabyte => "Petabyte"@,
        }
    } else {
        match unit {
            FileSizeUnit::Byte => "Bytes"@,
            FileSizeUnit::Kilobyte => "Kilobytes"@,
            FileSizeUnit::Megabyte => "Megabytes"@,
            FileSizeUnit::Gigabyte => "Gigabytes"@,
            FileSizeUnit::Terabyte => "Terabytes"@,
            FileSizeUnit::Petabyte => "Petabytes"@,
        }
    }
}

/// The magnitude a size takes in another unit: scaled up by the rank
/// difference, saturating at the largest representable value, or scaled down
/// with truncating division.
pub open spec fn spec_converted(size: u64, from: FileSizeUnit, to: FileSizeUnit) -> int {
    let d = from.spec_rank() - to.spec_rank();
    if d >= 0 {
        if size * spec_pow1000(d as nat) > u64::MAX {
            u64::MAX as int
        } else {
            size * spec_pow1000(d as nat)
        }
    } else {
        size as int / spec_pow1000((-d) as nat)
    }
}

/// A file size: a magnitude paired with its unit.
#[derive(Debug, Default, PartialEq, PartialOrd, Clone, Copy)]
pub struct FileSize {
    size: u64,
    unit: FileSizeUnit,
}

impl FileSize {
    /// The stored magnitude.
    pub closed spec fn size_view(&self) -> u64 {
        self.size
    }

    /// The stored unit.
    pub closed spec fn unit_view(&self) -> FileSizeUnit {
        self.unit
    }

    /// Builds a size from a magnitude and a unit.
    pub fn from_parts(size: u64, unit: FileSizeUnit) -> (r: Self)
        ensures
            r.size_view() == size,
            r.unit_view() == unit,
    {
        FileSize { size, unit }
    }

    /// The stored magnitude, in the stored unit.
    pub fn get_size(&self) -> (r: u64)
        ensures
            r == self.size_view(),
    {
        self.size
    }

    /// The stored unit.
    pub fn get_unit(&self) -> (r: FileSizeUnit)
        ensures
            r == self.unit_view(),
    {
        self.unit
    }

    /// The unit's name, pluralized unless the magnitude is one.
    pub fn unit_as_string(&self) -> (r: String)
        ensures
            r@ == spec_unit_string(self.unit_view(), self.size_view()),
    {
        if self.size == 1 {
            match self.unit {
                FileSizeUnit::Byte => String::from_str("Byte"),
                FileSizeUnit::Kilobyte => String::from_str("Kilobyte"),
                FileSizeUnit::Megabyte => String::from_str("Megabyte"),
                FileSizeUnit::Gigabyte => String::from_str("Gigabyte"),
                FileSizeUnit::Terabyte => String::from_str("Terabyte"),
                FileSizeUnit::Petabyte => String::from_str("Petabyte"),
            }
        } else {
            match self.unit {
                FileSizeUnit::Byte => String::from_str("Bytes"),
                FileSizeUnit::Kilobyte => String::from_str("Kilobytes"),
                FileSizeUnit::Megabyte => String::from_str("Megabytes"),
                FileSizeUnit::Gigabyte => String::from_str("Gigabytes"),
                FileSizeUnit::Terabyte => String::from_str("Terabytes"),
                FileSizeUnit::Petabyte => String::from_str("Petabytes"),
            }
        }
    }

    /// This size expressed in another unit: multiplied by a thousand for
    /// each rank stepped down, saturating at the largest representable
    /// value, or divided, truncating, for each rank stepped up.
    pub fn as_unit(&self, unit: FileSizeUnit) -> (r: Self)
        ensures
            r.unit_view() == unit,
            r.size_view() as int == spec_converted(self.size_view(), self.unit_view(), unit),
    {
        let from_rank = self.unit.variant_integer_id();
        let to_rank = unit.variant_integer_id();
        let size: u64 = if from_rank >= to_rank {
            let factor = pow1000((from_rank - to_rank) as u32);
            match self.size.checked_mul(factor) {
                Some(v) => v,
                None => u64::MAX,
            }
        } else {
            let factor = pow1000((to_rank - from_rank) as u32);
            proof {
                lemma_pow1000_pos((to_rank - from_rank) as nat);
            }
            self.size / factor
        };
        FileSize { size, unit }
    }

    /// Builds a size from raw bytes, picking the largest unit that keeps the
    /// magnitude at least one; the magnitude is truncated to that unit.
    pub fn from(bytes: u64) -> (r: Self)
        ensures
            bytes < THOUSAND ==> r.unit_view() == FileSizeUnit::Byte && r.size_view() == bytes,
            THOUSAND <= bytes < MILLION ==> r.unit_view() == FileSizeUnit::Kilobyte
                && r.size_view() == bytes / THOUSAND,
            MILLION <= bytes < BILLION ==> r.unit_view() == FileSizeUnit::Megabyte && r.size_view()
                == bytes / MILLION,
            BILLION <= bytes < TRILLION ==> r.unit_view() == FileSizeUnit::Gigabyte
                && r.size_view() == bytes / BILLION,
            TRILLION <= bytes < QUADRILLION ==> r.unit_view() == FileSizeUnit::Terabyte
                && r.size_view() == bytes / TRILLION,
            bytes >= QUADRILLION ==> r.unit_view() == FileSizeUnit::Petabyte && r.size_view()
                == bytes / QUADRILLION,
    {
        if bytes < THOUSAND {
            FileSize { size: bytes, unit: FileSizeUnit::Byte }
        } else if bytes < MILLION {
            FileSize { size: bytes / THOUSAND, unit: FileSizeUnit::Kilobyte }
        } else if bytes < BILLION {
            FileSize { size: bytes / MILLION, unit: FileSizeUnit::Megabyte }
        } else if bytes < TRILLION {
            FileSize { size: bytes / BILLION, unit: FileSizeUnit::Gigabyte }
        } else if bytes < QUADRILLION {
            FileSize { size: bytes / TRILLION, unit: FileSizeUnit::Terabyte }
        } else {
            FileSize { size: bytes / QUADRILLION, unit: FileSizeUnit::Petabyte }
        }
    }
}

/// Metadata snapshot of one tracked item: its name and extension, its size,
/// and Unix timestamps with their ages, where the platform provides them.
#[derive(Debug, Default, PartialEq, Clone)]
pub struct FileInformation {
    name: Option<String>,
    extension: Option<String>,
    size: FileSize,
    unix_created: Option<u64>,
    time_since_created: Option<u64>,
    unix_last_opened: Option<u64>,
    time_since_last_opened: Option<u64>,
    unix_last_modified: Option<u64>,
    time_since_last_modified: Option<u64>,
}

/// The view of an optional owned string.
pub open spec fn opt_string_view(s: Option<String>) -> Option<Seq<char>> {
    match s {
        Option::Some(v) => Option::Some(v@),
        Option::None => Option::None,
    }
}

impl FileInformation {
    pub closed spec fn name_view(&self) -> Option<Seq<char>> {
        opt_string_view(self.name)
    }

    pub closed spec fn extension_view(&self) -> Option<Seq<char>> {
        opt_string_view(self.extension)
    }

    pub closed spec fn size_info(&self) -> FileSize {
        self.size
    }

    pub closed spec fn unix_created_view(&self) -> Option<u64> {
        self.unix_created
    }

    pub closed spec fn time_since_created_view(&self) -> Option<u64> {
        self.time_since_created
    }

    pub closed spec fn unix_last_opened_view(&self) -> Option<u64> {
        self.unix_last_opened
    }

    pub closed spec fn time_since_last_opened_view(&self) -> Option<u64> {
        self.time_since_last_opened
    }

    pub closed spec fn unix_last_modified_view(&self) -> Option<u64> {
        self.unix_last_modified
    }

    pub closed spec fn time_since_last_modified_view(&self) -> Option<u64> {
        self.time_since_last_modified
    }

    /// Assembles a metadata snapshot from values the caller read from the
    /// filesystem: the split name, the raw size, and the timestamps with
    /// their ages.
    pub fn new(
        name: Option<String>,
        extension: Option<String>,
        size: FileSize,
        unix_created: Option<u64>,
        time_since_created: Option<u64>,
        unix_last_opened: Option<u64>,
        time_since_last_opened: Option<u64>,
        unix_last_modified: Option<u64>,
        time_since_last_modified: Option<u64>,
    ) -> (r: Self)
        ensures
            r.name_view() == opt_string_view(name),
            r.extension_view() == opt_string_view(extension),
            r.size_info() == size,
            r.unix_created_view() == unix_created,
            r.time_since_created_view() == time_since_created,
            r.unix_last_opened_view() == unix_last_opened,
            r.time_since_last_opened_view() == time_since_last_opened,
            r.unix_last_modified_view() == unix_last_modified,
            r.time_since_last_modified_view() == time_since_last_modified,
    {
        FileInformation {
            name,
            extension,
            size,
            unix_created,
            time_since_created,
            unix_last_opened,
            time_since_last_opened,
            unix_last_modified,
            time_since_last_modified,
        }
    }

    /// The file's name without its extension, or the directory's name.
    pub fn get_name(&self) -> (r: Option<&str>)
        ensures
            match r {
                Some(s) => self.name_view() == Some(s@),
                None => self.name_view() is None,
            },
    {
        match &self.name {
            Some(s) => Some(s.as_str()),
            None => None,
        }
    }

    /// The file's extension; directories have none.
    pub fn get_extension(&self) -> (r: Option<&str>)
        ensures
            match r {
                Some(s) => self.extension_view() == Some(s@),
                None => self.extension_view() is None,
            },
    {
        match &self.extension {
            Some(s) => Some(s.as_str()),
            None => None,
        }
    }

    /// The normalized size.
    pub fn get_size(&self) -> (r: &FileSize)
        ensures
            *r == self.size_info(),
    {
        &self.size
    }

    /// The creation time as Unix seconds, where available.
    pub fn get_unix_created(&self) -> (r: Option<&u64>)
        ensures
            match r {
                Some(v) => self.unix_created_view() == Some(*v),
                None => self.unix_created_view() is None,
            },
    {
        match &self.unix_created {
            Some(v) => Some(v),
            None => None,
        }
    }

    /// The age since creation in seconds, where available.
    pub fn get_time_since_created(&self) -> (r: Option<&u64>)
        ensures
            match r {
                Some(v) => self.time_since_created_view() == Some(*v),
                None => self.time_since_created_view() is None,
            },
    {
        match &self.time_since_created {
            Some(v) => Some(v),
            None => None,
        }
    }

    /// The last access time as Unix seconds, where available.
    pub fn get_unix_last_opened(&self) -> (r: Option<&u64>)
        ensures
            match r {
                Some(v) => self.unix_last_opened_view() == Some(*v),
                None => self.unix_last_opened_view() is None,
            },
    {
        match &self.unix_last_opened {
            Some(v) => Some(v),
            None => None,
        }
    }

    /// The age since the last access in seconds, where available.
    pub fn get_time_since_last_opened(&self) -> (r: Option<&u64>)
        ensures
            match r {
                Some(v) => self.time_since_last_opened_view() == Some(*v),
                None => self.time_since_last_opened_view() is None,
            },
    {
        match &self.time_since_last_opened {
            Some(v) => Some(v),
            None => None,
        }
    }

    /// The last modification time as Unix seconds, where available.
    pub fn get_unix_last_modified(&self) -> (r: Option<&u64>)
        ensures
            match r {
                Some(v) => self.unix_last_modified_view() == Some(*v),
                None => self.unix_last_modified_view() is None,
            },
    {
        match &self.unix_last_modified {
            Some(v) => Some(v),
            None => None,
        }
    }

    /// The age since the last modification in seconds, where available.
    pub fn get_time_since_last_modified(&self) -> (r: Option<&u64>)
        ensures
            match r {
                Some(v) => self.time_since_last_modified_view() == Some(*v),
                None => self.time_since_last_modified_view() is None,
            },
    {
        match &self.time_since_last_modified {
            Some(v) => Some(v),
            None => None,
        }
    }
}

} // verus!
