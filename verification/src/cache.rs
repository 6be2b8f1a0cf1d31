//! Durable fingerprint-keyed memoization of solved tours.
//!
//! A solved instance is filed under a fingerprint of its city list, so a
//! later solve of the same coordinates returns the stored tour instead of
//! rescanning.  Coordinates enter the fingerprint pre-quantized to four
//! decimal places (see `City`), so floating-point noise in a caller's data
//! cannot cause a spurious miss.  The store itself is a key-value database
//! whose loading and dumping are the caller's concern; between those, reads
//! and writes are plain in-memory operations.

use vstd::prelude::*;

use pickledb::{PickleDb, PickleDbDumpPolicy, SerializationMethod};
use std::collections::hash_map::DefaultHasher;
use std::hash::Hasher;

use crate::tour::City;
use vstd::std_specs::hash::DefaultHasherAdditionalSpecFns;

verus! {

#[verifier::external_type_specification]
#[verifier::external_body]
pub struct ExPickleDb(PickleDb);

/// The tours readable from the store: every key mapped to the city-number
/// list that a lookup of that key would yield.
pub uninterp spec fn db_tours(db: PickleDb) -> Map<Seq<char>, Seq<usize>>;

/// The store was built with a dump policy that writes the file only on an
/// explicit request, never from inside a write.  Writes to such a store are
/// pure in-memory operations: they cannot fail on the file path or the
/// system clock, both of which an automatic dump would consult.
pub uninterp spec fn manual_dump(db: PickleDb) -> bool;

/// Relies on `pickledb::PickleDb::new`: builds an empty store that dumps
/// only on request (nothing is read or written here; `new` only records the
/// path and the policy).
#[verifier::external_body]
fn new_store(path: &str) -> (r: PickleDb)
    ensures
        manual_dump(r),
        db_tours(r) =~= Map::empty(),
{
    PickleDb::new(path, PickleDbDumpPolicy::DumpUponRequest, SerializationMethod::Json)
}

/// Relies on `pickledb::PickleDb::get::<Vec<usize>>`: returns the list
/// stored under the key, or nothing when the key is absent (or holds no
/// such list).
#[verifier::external_body]
fn db_get_tour(db: &PickleDb, key: &String) -> (r: Option<Vec<usize>>)
    ensures
        match r {
            Some(v) => db_tours(*db).contains_key(key@) && v@ == db_tours(*db)[key@],
            None => !db_tours(*db).contains_key(key@),
        },
{
    db.get::<Vec<usize>>(key.as_str())
}

/// Relies on `pickledb::PickleDb::set::<Vec<usize>>` on a store that dumps
/// only on request: the call touches memory alone (it cannot reach the
/// panicking path-and-clock code of an automatic dump), serializing a list
/// of machine words never fails, and the dump step is a no-op — so the
/// write always succeeds and the store maps the key to the list.  The
/// policy is part of neither map, so it survives the write.
#[verifier::external_body]
fn db_set_tour(db: &mut PickleDb, key: &String, path: &Vec<usize>) -> (ok: bool)
    requires
        manual_dump(*old(db)),
    ensures
        ok,
        manual_dump(*final(db)),
        db_tours(*final(db)) == db_tours(*old(db)).insert(key@, path@),
{
    db.set::<Vec<usize>>(key.as_str(), path).is_ok()
}

/// The character for one hexadecimal digit.
pub open spec fn hex_digit_char(d: int) -> char {
    if d == 0 {
        '0'
    } else if d == 1 {
        '1'
    } else if d == 2 {
        '2'
    } else if d == 3 {
        '3'
    } else if d == 4 {
        '4'
    } else if d == 5 {
        '5'
    } else if d == 6 {
        '6'
    } else if d == 7 {
        '7'
    } else if d == 8 {
        '8'
    } else if d == 9 {
        '9'
    } else if d == 10 {
        'a'
    } else if d == 11 {
        'b'
    } else if d == 12 {
        'c'
    } else if d == 13 {
        'd'
    } else if d == 14 {
        'e'
    } else {
        'f'
    }
}

/// The key text a fingerprint is filed under: a prefixed, fixed-width
/// lower-hex rendering, most significant nibble first.  Fixed width makes
/// the text an injective image of the fingerprint.
pub open spec fn hex_key_of(fingerprint: u64) -> Seq<char> {
    seq!['0', 'x'] + Seq::new(
        16,
        |i: int| hex_digit_char(((fingerprint >> ((60 - 4 * i) as u64)) & 0xf) as int),
    )
}

/// Renders the key text of a fingerprint.
fn hex_key(fingerprint: u64) -> (s: String)
    ensures
        s@ == hex_key_of(fingerprint),
{
    let mut s = String::new();
    s.append("0x");
    proof {
        reveal_strlit("0x");
        assert(s@ =~= hex_key_of(fingerprint).subrange(0, 2));
    }
    let mut i: usize = 0;
    while i < 16
        invariant
            i <= 16,
            s@ == hex_key_of(fingerprint).subrange(0, 2 + i),
        decreases 16 - i,
    {
        let sh: u64 = 60 - 4 * (i as u64);
        let nib: u64 = (fingerprint >> sh) & 0xf;
        proof {
            assert((fingerprint >> sh) & 0xf <= 15) by (bit_vector);
        }
        let ds: &str = if nib == 0 {
            "0"
        } else if nib == 1 {
            "1"
        } else if nib == 2 {
            "2"
        } else if nib == 3 {
            "3"
        } else if nib == 4 {
            "4"
        } else if nib == 5 {
            "5"
        } else if nib == 6 {
            "6"
        } else if nib == 7 {
            "7"
        } else if nib == 8 {
            "8"
        } else if nib == 9 {
            "9"
        } else if nib == 10 {
            "a"
        } else if nib == 11 {
            "b"
        } else if nib == 12 {
            "c"
        } else if nib == 13 {
            "d"
        } else if nib == 14 {
            "e"
        } else {
            "f"
        };
        proof {
            reveal_strlit("0");
            reveal_strlit("1");
            reveal_strlit("2");
            reveal_strlit("3");
            reveal_strlit("4");
            reveal_strlit("5");
            reveal_strlit("6");
            reveal_strlit("7");
            reveal_strlit("8");
            reveal_strlit("9");
            reveal_strlit("a");
            reveal_strlit("b");
            reveal_strlit("c");
            reveal_strlit("d");
            reveal_strlit("e");
            reveal_strlit("f");
            assert(ds@ =~= seq![hex_digit_char(nib as int)]);
        }
        s.append(ds);
        i = i + 1;
        proof {
            assert(s@ =~= hex_key_of(fingerprint).subrange(0, 2 + i));
        }
    }
    proof {
        assert(s@ =~= hex_key_of(fingerprint));
    }
    s
}

/// The eight bytes of `x`, least significant first.
pub open spec fn le64(x: u64) -> Seq<u8> {
    seq![
        ((x >> 0) & 0xff) as u8,
        ((x >> 8) & 0xff) as u8,
        ((x >> 16) & 0xff) as u8,
        ((x >> 24) & 0xff) as u8,
        ((x >> 32) & 0xff) as u8,
        ((x >> 40) & 0xff) as u8,
        ((x >> 48) & 0xff) as u8,
        ((x >> 56) & 0xff) as u8,
    ]
}

/// The byte chunks a city list feeds to the hasher: number, then quantized
/// X, then quantized Y of each city, in list order.
pub open spec fn city_chunks(cities: Seq<City>) -> Seq<Seq<u8>>
    decreases cities.len(),
{
    if cities.len() == 0 {
        Seq::empty()
    } else {
        let c = cities.last();
        city_chunks(cities.drop_last()) + seq![
            le64(c.num as u64),
            le64(c.x4 as u64),
            le64(c.y4 as u64),
        ]
    }
}

/// The fingerprint of a city list: the hash of its quantized coordinates
/// and numbers, in list order.
pub open spec fn city_fingerprint(cities: Seq<City>) -> u64 {
    DefaultHasher::spec_finish(city_chunks(cities))
}

/// The store key of a city list.
pub open spec fn spec_solution_key(cities: Seq<City>) -> Seq<char> {
    hex_key_of(city_fingerprint(cities))
}

/// Feeds one value to the hasher, least significant byte first.
fn write_u64(h: &mut DefaultHasher, x: u64)
    ensures
        final(h)@ == old(h)@.push(le64(x)),
{
    let mut buf: Vec<u8> = Vec::new();
    buf.push(((x >> 0) & 0xff) as u8);
    buf.push(((x >> 8) & 0xff) as u8);
    buf.push(((x >> 16) & 0xff) as u8);
    buf.push(((x >> 24) & 0xff) as u8);
    buf.push(((x >> 32) & 0xff) as u8);
    buf.push(((x >> 40) & 0xff) as u8);
    buf.push(((x >> 48) & 0xff) as u8);
    buf.push(((x >> 56) & 0xff) as u8);
    proof {
        assert(buf@ =~= le64(x));
    }
    h.write(buf.as_slice());
}

/// The fingerprint of the city list.
pub fn solution_fingerprint(cities: &Vec<City>) -> (r: u64)
    ensures
        r == city_fingerprint(cities@),
{
    let mut h = DefaultHasher::new();
    let mut i: usize = 0;
    while i < cities.len()
        invariant
            i <= cities@.len(),
            h@ == city_chunks(cities@.take(i as int)),
        decreases cities@.len() - i,
    {
        let c = cities[i];
        write_u64(&mut h, c.num as u64);
        write_u64(&mut h, c.x4 as u64);
        write_u64(&mut h, c.y4 as u64);
        i = i + 1;
        proof {
            let t = cities@.take(i as int);
            assert(t.drop_last() =~= cities@.take(i - 1));
            assert(t.last() == cities@[i - 1]);
        }
    }
    proof {
        assert(cities@.take(cities@.len() as int) =~= cities@);
    }
    h.finish()
}

/// Fingerprint-keyed store of solved tours.
///
/// The caller owns durability: it loads the backing database before
/// handing it in and dumps it after taking it back out (`into_db`),
/// amortizing the write instead of paying it on every solve.
pub struct SolutionCache {
    db: PickleDb,
}

impl SolutionCache {
    /// The tours the cache holds, by key text.
    pub closed spec fn tours(self) -> Map<Seq<char>, Seq<usize>> {
        db_tours(self.db)
    }

    /// The backing store dumps only on request, so writes stay in memory.
    pub closed spec fn wf(self) -> bool {
        manual_dump(self.db)
    }

    /// Wraps a loaded (or fresh) backing store.  The caller must have built
    /// it with a dump-on-request policy, as `main` does when it loads the
    /// durable file.
    pub fn new(db: PickleDb) -> (c: SolutionCache)
        requires
            manual_dump(db),
        ensures
            c.wf(),
            c.tours() == db_tours(db),
    {
        SolutionCache { db }
    }

    /// An empty cache over a fresh store at `path`; nothing touches the file
    /// until the store is taken back out and dumped.
    pub fn create(path: &str) -> (c: SolutionCache)
        ensures
            c.wf(),
            c.tours() =~= Map::empty(),
    {
        SolutionCache { db: new_store(path) }
    }

    /// Hands the backing store back, for the caller to dump.
    pub fn into_db(self) -> (db: PickleDb)
        ensures
            db_tours(db) == self.tours(),
    {
        self.db
    }

    /// The stored tour for this city list, if any.
    pub fn get(&self, cities: &Vec<City>) -> (r: Option<Vec<usize>>)
        ensures
            match r {
                Some(v) => self.tours().contains_key(spec_solution_key(cities@)) && v@
                    == self.tours()[spec_solution_key(cities@)],
                None => !self.tours().contains_key(spec_solution_key(cities@)),
            },
    {
        let key = hex_key(solution_fingerprint(cities));
        db_get_tour(&self.db, &key)
    }

    /// Files the solved path under the city list's key.  On a well-formed
    /// store the write always lands (it is an in-memory accumulate; the
    /// durability cost falls on the caller's explicit dump), so the returned
    /// flag is always true.
    pub fn put(&mut self, cities: &Vec<City>, path: &Vec<usize>) -> (ok: bool)
        requires
            old(self).wf(),
        ensures
            ok,
            final(self).wf(),
            final(self).tours() == old(self).tours().insert(spec_solution_key(cities@), path@),
    {
        let key = hex_key(solution_fingerprint(cities));
        db_set_tour(&mut self.db, &key, path)
    }
}

} // verus!
