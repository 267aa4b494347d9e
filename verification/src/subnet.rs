//! The `Subnet` type: a validated CIDR block with its mask, network start
//! address and address count, and the enumeration of its addresses.

use crate::addr::{
    and_octets, be_int, dotted_value, ip_string, ip_text, lemma_and_mask_aligned,
    lemma_ip_text_value, mask_from_prefix, mask_octets, pow2_u64,
};
use crate::parse::{dec_val, is_dec_in_range, parse_dec, split_on, split_str, views_of};
use vstd::arithmetic::power2::{lemma_pow2_pos, pow2};
use vstd::prelude::*;
use vstd::string::StringExecFns;

verus! {

/// Why a CIDR string, or an enumeration request, was rejected.
#[derive(Clone, Copy, Debug, PartialEq, Eq, Structural)]
pub enum SubnetError {
    /// The input does not hold exactly one `/`.
    MalformedCidr,
    /// The address part is not four decimal numbers in 0-255 separated by dots.
    InvalidOctet,
    /// The prefix part is not a decimal number in 0-32.
    InvalidPrefixLength,
    /// An address and a mask of different lengths were combined.
    LengthMismatch,
    /// Enumeration would run past the top of the 32-bit address space.
    AddressSpaceOverflow,
}

/// A short description of an error.
pub open spec fn error_text(e: SubnetError) -> Seq<char> {
    match e {
        SubnetError::MalformedCidr => "CIDR block must be in the format IP/PREFIX"@,
        SubnetError::InvalidOctet => "IP address octets must be integers in the range 0-255"@,
        SubnetError::InvalidPrefixLength => "prefix length must be an integer in the range 0-32"@,
        SubnetError::LengthMismatch => "address and mask differ in length"@,
        SubnetError::AddressSpaceOverflow => "IP address overflow"@,
    }
}

impl SubnetError {
    /// The description of this error, for reporting to a user.
    pub fn message(&self) -> (m: String)
        ensures
            m@ == error_text(*self),
    {
        match self {
            SubnetError::MalformedCidr => String::from_str(
                "CIDR block must be in the format IP/PREFIX",
            ),
            SubnetError::InvalidOctet => String::from_str(
                "IP address octets must be integers in the range 0-255",
            ),
            SubnetError::InvalidPrefixLength => String::from_str(
                "prefix length must be an integer in the range 0-32",
            ),
            SubnetError::LengthMismatch => String::from_str("address and mask differ in length"),
            SubnetError::AddressSpaceOverflow => String::from_str("IP address overflow"),
        }
    }
}

/// The two parts of a CIDR string around `/`.
pub open spec fn cidr_parts(s: Seq<char>) -> Seq<Seq<char>> {
    split_on(s, '/')
}

/// The string holds exactly one `/`.
pub open spec fn cidr_shape_ok(s: Seq<char>) -> bool {
    cidr_parts(s).len() == 2
}

/// The dot-separated pieces of the address part.
pub open spec fn octet_segments(s: Seq<char>) -> Seq<Seq<char>> {
    split_on(cidr_parts(s)[0], '.')
}

/// The address part is four decimal numbers, each in 0-255.
pub open spec fn octets_ok(s: Seq<char>) -> bool {
    octet_segments(s).len() == 4 && (forall|j: int|
        0 <= j < 4 ==> is_dec_in_range(#[trigger] octet_segments(s)[j], 255))
}

/// The four octet values of a well-formed address part.
pub open spec fn octet_values(s: Seq<char>) -> Seq<u8> {
    Seq::new(4, |j: int| dec_val(octet_segments(s)[j]) as u8)
}

/// The prefix part is a decimal number in 0-32.
pub open spec fn prefix_ok(s: Seq<char>) -> bool {
    is_dec_in_range(cidr_parts(s)[1], 32)
}

/// The prefix length of a well-formed CIDR string.
pub open spec fn prefix_value(s: Seq<char>) -> int {
    dec_val(cidr_parts(s)[1])
}

/// The first reason to reject a CIDR string, or `None` for a valid one:
/// the shape is checked first, then the octets, then the prefix.
pub open spec fn cidr_check(s: Seq<char>) -> Option<SubnetError> {
    if !cidr_shape_ok(s) {
        Some(SubnetError::MalformedCidr)
    } else if !octets_ok(s) {
        Some(SubnetError::InvalidOctet)
    } else if !prefix_ok(s) {
        Some(SubnetError::InvalidPrefixLength)
    } else {
        None
    }
}

/// The mathematical content of a `Subnet`.
pub ghost struct SubnetView {
    /// The CIDR string the subnet was built from.
    pub cidr: Seq<char>,
    /// The four mask bytes.
    pub mask: Seq<u8>,
    /// The four bytes of the lowest address of the block.
    pub start: Seq<u8>,
    /// How many addresses the block holds.
    pub total: int,
    /// The prefix length.
    pub prefix: int,
}

/// An IPv4 CIDR block: the original string, the subnet mask, the network
/// start address and the total address count.
pub struct Subnet {
    cidr_block: String,
    subnet_mask: Vec<u8>,
    network_start: Vec<u8>,
    total_ips: u64,
    prefix_length: u8,
}

impl View for Subnet {
    type V = SubnetView;

    closed spec fn view(&self) -> SubnetView {
        SubnetView {
            cidr: self.cidr_block@,
            mask: self.subnet_mask@,
            start: self.network_start@,
            total: self.total_ips as int,
            prefix: self.prefix_length as int,
        }
    }
}

impl Subnet {
    /// A structurally sound subnet: four mask and start bytes, a prefix in
    /// 0-32, the count and mask both determined by the prefix, and a start
    /// address aligned to the block so that the whole block fits in the
    /// 32-bit address space.
    pub open spec fn wf(self) -> bool {
        let v = self@;
        &&& v.mask.len() == 4
        &&& v.start.len() == 4
        &&& 0 <= v.prefix <= 32
        &&& 1 <= v.total <= 0x100000000
        &&& v.total == pow2((32 - v.prefix) as nat)
        &&& v.mask == mask_octets(v.prefix)
        &&& be_int(v.start) % v.total == 0
        &&& be_int(v.start) + v.total <= 0x100000000
    }

    /// Reads the address part of a CIDR string as four octet values.
    pub fn cidr_str_to_network_vec(cidr_block: &str) -> (r: Result<Vec<u8>, SubnetError>)
        ensures
            (cidr_shape_ok(cidr_block@) && octets_ok(cidr_block@)) <==> r is Ok,
            r matches Ok(v) ==> v@ == octet_values(cidr_block@),
            !cidr_shape_ok(cidr_block@) ==> r == Err::<Vec<u8>, SubnetError>(
                SubnetError::MalformedCidr,
            ),
            cidr_shape_ok(cidr_block@) && !octets_ok(cidr_block@) ==> r == Err::<
                Vec<u8>,
                SubnetError,
            >(SubnetError::InvalidOctet),
    {
        let parts = split_str(cidr_block, '/');
        if parts.len() != 2 {
            return Err(SubnetError::MalformedCidr);
        }
        let segs = split_str(parts[0].as_str(), '.');
        proof {
            assert(parts@[0]@ == cidr_parts(cidr_block@)[0]);
            assert(views_of(segs@) =~~= octet_segments(cidr_block@));
        }
        if segs.len() != 4 {
            return Err(SubnetError::InvalidOctet);
        }
        let mut out: Vec<u8> = Vec::new();
        let mut j: usize = 0;
        while j < 4
            invariant
                cidr_shape_ok(cidr_block@),
                segs@.len() == 4,
                views_of(segs@) =~~= octet_segments(cidr_block@),
                j <= 4,
                out@.len() == j,
                forall|t: int|
                    0 <= t < j ==> is_dec_in_range(#[trigger] octet_segments(cidr_block@)[t], 255)
                        && out@[t] as int == dec_val(octet_segments(cidr_block@)[t]),
            decreases 4 - j,
        {
            match parse_dec(segs[j].as_str(), 255) {
                Some(v) => {
                    out.push(v as u8);
                },
                None => {
                    proof {
                        assert(!is_dec_in_range(octet_segments(cidr_block@)[j as int], 255));
                    }
                    return Err(SubnetError::InvalidOctet);
                },
            }
            j = j + 1;
        }
        proof {
            assert(octets_ok(cidr_block@));
            assert(out@ =~= octet_values(cidr_block@));
        }
        Ok(out)
    }

    /// Derives the four subnet mask bytes from the prefix length of a CIDR
    /// string: the top `prefix` bits set, the rest clear.
    pub fn get_subnet_mask_dec(cidr_block: &str) -> (r: Result<Vec<u8>, SubnetError>)
        ensures
            (cidr_shape_ok(cidr_block@) && prefix_ok(cidr_block@)) <==> r is Ok,
            r matches Ok(v) ==> v@ == mask_octets(prefix_value(cidr_block@)) && v@.len() == 4,
            !cidr_shape_ok(cidr_block@) ==> r == Err::<Vec<u8>, SubnetError>(
                SubnetError::MalformedCidr,
            ),
            cidr_shape_ok(cidr_block@) && !prefix_ok(cidr_block@) ==> r == Err::<
                Vec<u8>,
                SubnetError,
            >(SubnetError::InvalidPrefixLength),
    {
        let parts = split_str(cidr_block, '/');
        if parts.len() != 2 {
            return Err(SubnetError::MalformedCidr);
        }
        proof {
            assert(parts@[1]@ == cidr_parts(cidr_block@)[1]);
        }
        match parse_dec(parts[1].as_str(), 32) {
            Some(p) => Ok(mask_from_prefix(p as u8)),
            None => Err(SubnetError::InvalidPrefixLength),
        }
    }

    /// The lowest address of the block: the byte-wise AND of an address with
    /// a mask of the same length.
    pub fn get_network_start(ip_address: &Vec<u8>, subnet_mask: &Vec<u8>) -> (r: Result<
        Vec<u8>,
        SubnetError,
    >)
        ensures
            (ip_address@.len() == subnet_mask@.len()) <==> r is Ok,
            r matches Ok(v) ==> v@ == and_octets(ip_address@, subnet_mask@),
            ip_address@.len() != subnet_mask@.len() ==> r == Err::<Vec<u8>, SubnetError>(
                SubnetError::LengthMismatch,
            ),
    {
        if ip_address.len() != subnet_mask.len() {
            return Err(SubnetError::LengthMismatch);
        }
        let n: usize = ip_address.len();
        let mut out: Vec<u8> = Vec::new();
        let mut i: usize = 0;
        while i < n
            invariant
                n == ip_address@.len() == subnet_mask@.len(),
                i <= n,
                out@.len() == i,
                forall|t: int| 0 <= t < i ==> out@[t] == (ip_address@[t] & subnet_mask@[t]),
            decreases n - i,
        {
            out.push(ip_address[i] & subnet_mask[i]);
            i = i + 1;
        }
        proof {
            assert(out@ =~= and_octets(ip_address@, subnet_mask@));
        }
        Ok(out)
    }

    /// The number of addresses in the block of a CIDR string: exactly
    /// `2^(32 - prefix)`, as a 64-bit value so that prefix 0 is exact.
    pub fn total_ips_from_cidr(cidr_block: &str) -> (r: Result<u64, SubnetError>)
        ensures
            (cidr_shape_ok(cidr_block@) && prefix_ok(cidr_block@)) <==> r is Ok,
            r matches Ok(n) ==> n as nat == pow2((32 - prefix_value(cidr_block@)) as nat),
            !cidr_shape_ok(cidr_block@) ==> r == Err::<u64, SubnetError>(SubnetError::MalformedCidr),
            cidr_shape_ok(cidr_block@) && !prefix_ok(cidr_block@) ==> r == Err::<u64, SubnetError>(
                SubnetError::InvalidPrefixLength,
            ),
    {
        let parts = split_str(cidr_block, '/');
        if parts.len() != 2 {
            return Err(SubnetError::MalformedCidr);
        }
        proof {
            assert(parts@[1]@ == cidr_parts(cidr_block@)[1]);
        }
        match parse_dec(parts[1].as_str(), 32) {
            Some(p) => Ok(pow2_u64(32 - p)),
            None => Err(SubnetError::InvalidPrefixLength),
        }
    }

    /// Builds a subnet from a CIDR string. Succeeds exactly on valid input;
    /// on failure returns the first error that `cidr_check` names.
    pub fn new(cidr_block: &str) -> (r: Result<Subnet, SubnetError>)
        ensures
            r is Ok <==> cidr_check(cidr_block@) is None,
            r matches Err(e) ==> cidr_check(cidr_block@) == Some(e),
            r matches Ok(sub) ==> {
                &&& sub.wf()
                &&& sub@.cidr == cidr_block@
                &&& sub@.prefix == prefix_value(cidr_block@)
                &&& sub@.mask == mask_octets(sub@.prefix)
                &&& sub@.start == and_octets(octet_values(cidr_block@), mask_octets(sub@.prefix))
                &&& sub@.total == pow2((32 - sub@.prefix) as nat)
            },
    {
        let parts = split_str(cidr_block, '/');
        if parts.len() != 2 {
            return Err(SubnetError::MalformedCidr);
        }
        let ip_address = match Self::cidr_str_to_network_vec(cidr_block) {
            Ok(v) => v,
            Err(e) => { return Err(e) },
        };
        let subnet_mask = match Self::get_subnet_mask_dec(cidr_block) {
            Ok(v) => v,
            Err(e) => { return Err(e) },
        };
        proof {
            assert(parts@[1]@ == cidr_parts(cidr_block@)[1]);
        }
        let p: u32 = match parse_dec(parts[1].as_str(), 32) {
            Some(p) => p,
            None => {
                proof {
                    assert(false);
                }
                return Err(SubnetError::InvalidPrefixLength);
            },
        };
        let network_start = match Self::get_network_start(&ip_address, &subnet_mask) {
            Ok(v) => v,
            Err(e) => {
                proof {
                    assert(false);
                }
                return Err(e);
            },
        };
        let total_ips = match Self::total_ips_from_cidr(cidr_block) {
            Ok(v) => v,
            Err(e) => {
                proof {
                    assert(false);
                }
                return Err(e);
            },
        };
        let sub = Subnet {
            cidr_block: String::from_str(cidr_block),
            subnet_mask,
            network_start,
            total_ips,
            prefix_length: p as u8,
        };
        proof {
            lemma_and_mask_aligned(octet_values(cidr_block@), p as int);
            lemma_pow2_pos((32 - p) as nat);
        }
        Ok(sub)
    }

    /// The CIDR string the subnet was built from.
    pub fn cidr_block(&self) -> (c: String)
        ensures
            c@ == self@.cidr,
    {
        self.cidr_block.clone()
    }

    /// The four subnet mask bytes.
    pub fn subnet_mask(&self) -> (m: Vec<u8>)
        ensures
            m@ == self@.mask,
    {
        let m = self.subnet_mask.clone();
        proof {
            assert(m@ =~= self@.mask);
        }
        m
    }

    /// The four bytes of the network start address.
    pub fn network_start(&self) -> (v: Vec<u8>)
        ensures
            v@ == self@.start,
    {
        let v = self.network_start.clone();
        proof {
            assert(v@ =~= self@.start);
        }
        v
    }

    /// How many addresses the block holds.
    pub fn total_addresses(&self) -> (n: u64)
        ensures
            n as int == self@.total,
    {
        self.total_ips
    }

    /// The `i`-th address of the block as dotted-decimal text, counting up
    /// from the network start address.
    pub fn address_at(&self, i: u64) -> (t: String)
        requires
            self.wf(),
            i < self@.total,
        ensures
            t@ == ip_text(be_int(self@.start) + i),
    {
        match range_address(&self.network_start, self.total_ips, i) {
            Ok(t) => t,
            Err(_) => {
                proof {
                    assert(false);
                }
                String::new()
            },
        }
    }
}

/// The `i`-th address, counting up from a four-byte start address, of a
/// block of `total` addresses: fails with `AddressSpaceOverflow` exactly
/// when the block would run past the 32-bit address space.
pub fn range_address(network_start: &Vec<u8>, total: u64, i: u64) -> (r: Result<String, SubnetError>)
    requires
        network_start@.len() == 4,
        i < total,
    ensures
        (be_int(network_start@) + total <= 0x100000000) <==> r is Ok,
        r matches Ok(t) ==> t@ == ip_text(be_int(network_start@) + i),
        be_int(network_start@) + total > 0x100000000 ==> r == Err::<String, SubnetError>(
            SubnetError::AddressSpaceOverflow,
        ),
{
    let base = crate::addr::be_to_u32(network_start);
    if total > 0x100000000u64 || (base as u64) + (total - 1) > 0xFFFFFFFFu64 {
        return Err(SubnetError::AddressSpaceOverflow);
    }
    let v: u32 = ((base as u64) + i) as u32;
    Ok(ip_string(v))
}

/// The whole address sequence of a subnet: entry `i` is the text of the
/// address `i` above the network start.
pub open spec fn address_list(s: Subnet) -> Seq<Seq<char>> {
    Seq::new(s@.total as nat, |i: int| ip_text(be_int(s@.start) + i))
}

/// The address sequence of a subnet has length exactly its address count,
/// starts at the network start address, ends exactly `total - 1` above it
/// without leaving the 32-bit address space, and is strictly ascending by
/// address value, so it holds no duplicates.
pub proof fn lemma_address_list(s: Subnet)
    requires
        s.wf(),
    ensures
        address_list(s).len() == s@.total,
        s@.total >= 1,
        be_int(s@.start) + s@.total <= 0x100000000,
        forall|i: int|
            0 <= i < s@.total ==> #[trigger] address_list(s)[i] == ip_text(be_int(s@.start) + i),
        address_list(s).first() == ip_text(be_int(s@.start)),
        address_list(s).last() == ip_text(be_int(s@.start) + s@.total - 1),
        forall|i: int|
            0 <= i < s@.total ==> dotted_value(#[trigger] address_list(s)[i]) == be_int(s@.start)
                + i,
        forall|i: int, j: int|
            0 <= i < j < s@.total ==> dotted_value(#[trigger] address_list(s)[i]) < dotted_value(
                #[trigger] address_list(s)[j],
            ),
        forall|i: int, j: int|
            0 <= i < j < s@.total ==> #[trigger] address_list(s)[i] != #[trigger] address_list(
                s,
            )[j],
{
    lemma_pow2_pos((32 - s@.prefix) as nat);
    assert forall|i: int| 0 <= i < s@.total implies dotted_value(#[trigger] address_list(s)[i])
        == be_int(s@.start) + i by {
        lemma_ip_text_value(be_int(s@.start) + i);
    }
}

} // verus!
