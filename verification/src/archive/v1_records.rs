//! The fixed records of a v1 archive, and what each must hold.

use vstd::prelude::*;
use vstd::string::*;

use crate::error::{bad_v1_directory, bad_v1_entry, Fault, Result};
use crate::text;
use crate::text::{dec, dword, word};
use crate::zip::{CentralDirectoryHeader, Eocd64Locator, Eocd64Record, EocdRecord};

verus! {

/// What is wrong with the classic EOCD record of a ZIP64 archive.
pub open spec fn classic_eocd_fault(eocd: EocdRecord) -> Option<Fault> {
    if eocd.disk_number != u16::MAX || eocd.central_dir_disk != u16::MAX {
        Some(
            Fault::MalformedV1InstallBlock(
                "ZIP64 EOCD disk sentinels "@ + text::word_text(eocd.disk_number) + "/"@
                    + text::word_text(eocd.central_dir_disk) + ", expected 0xffff/0xffff"@,
            ),
        )
    } else if eocd.central_dir_count_disk != u16::MAX || eocd.central_dir_count_total != u16::MAX {
        Some(
            Fault::MalformedV1InstallBlock(
                "ZIP64 EOCD count sentinels "@ + text::word_text(eocd.central_dir_count_disk)
                    + "/"@ + text::word_text(eocd.central_dir_count_total)
                    + ", expected 0xffff/0xffff"@,
            ),
        )
    } else if eocd.central_dir_size != u32::MAX || eocd.central_dir_offset != u32::MAX {
        Some(
            Fault::MalformedV1InstallBlock(
                "ZIP64 EOCD size/offset sentinels "@ + text::dword_text(eocd.central_dir_size)
                    + "/"@ + text::dword_text(eocd.central_dir_offset)
                    + ", expected 0xffffffff/0xffffffff"@,
            ),
        )
    } else if eocd.comment_length != 16 {
        Some(
            Fault::MalformedV1InstallBlock(
                "ZIP64 EOCD CI comment length "@ + text::dec_text(eocd.comment_length as nat)
                    + ", expected 16"@,
            ),
        )
    } else {
        None
    }
}

/// Check the classic EOCD record of a ZIP64 archive.
pub fn validate_v1_zip64_classic_eocd(eocd: &EocdRecord) -> (r: Result<()>)
    ensures
        match r {
            Ok(_) => classic_eocd_fault(*eocd) is None,
            Err(e) => classic_eocd_fault(*eocd) == Some(e@),
        },
{
    if eocd.disk_number != u16::MAX || eocd.central_dir_disk != u16::MAX {
        return bad_v1_directory(
            String::from_str("ZIP64 EOCD disk sentinels ").concat(
                word(eocd.disk_number).as_str(),
            ).concat("/").concat(word(eocd.central_dir_disk).as_str()).concat(
                ", expected 0xffff/0xffff",
            ),
        );
    }
    if eocd.central_dir_count_disk != u16::MAX || eocd.central_dir_count_total != u16::MAX {
        return bad_v1_directory(
            String::from_str("ZIP64 EOCD count sentinels ").concat(
                word(eocd.central_dir_count_disk).as_str(),
            ).concat("/").concat(word(eocd.central_dir_count_total).as_str()).concat(
                ", expected 0xffff/0xffff",
            ),
        );
    }
    if eocd.central_dir_size != u32::MAX || eocd.central_dir_offset != u32::MAX {
        return bad_v1_directory(
            String::from_str("ZIP64 EOCD size/offset sentinels ").concat(
                dword(eocd.central_dir_size).as_str(),
            ).concat("/").concat(dword(eocd.central_dir_offset).as_str()).concat(
                ", expected 0xffffffff/0xffffffff",
            ),
        );
    }
    if eocd.comment_length != 16 {
        return bad_v1_directory(
            String::from_str("ZIP64 EOCD CI comment length ").concat(
                dec(eocd.comment_length as u64).as_str(),
            ).concat(", expected 16"),
        );
    }
    Ok(())
}

/// What is wrong with a ZIP64 locator.
pub open spec fn locator_fault(locator: Eocd64Locator) -> Option<Fault> {
    if locator.zip64_eocd_disk != 0 || locator.total_disks != 1 {
        Some(
            Fault::MalformedV1InstallBlock(
                "ZIP64 locator disk fields "@ + text::dec_text(locator.zip64_eocd_disk as nat)
                    + "/"@ + text::dec_text(locator.total_disks as nat) + ", expected 0/1"@,
            ),
        )
    } else {
        None
    }
}

/// Check a ZIP64 locator.
pub fn validate_v1_zip64_locator(locator: &Eocd64Locator) -> (r: Result<()>)
    ensures
        match r {
            Ok(_) => locator_fault(*locator) is None,
            Err(e) => locator_fault(*locator) == Some(e@),
        },
{
    if locator.zip64_eocd_disk != 0 || locator.total_disks != 1 {
        return bad_v1_directory(
            String::from_str("ZIP64 locator disk fields ").concat(
                dec(locator.zip64_eocd_disk as u64).as_str(),
            ).concat("/").concat(dec(locator.total_disks as u64).as_str()).concat(
                ", expected 0/1",
            ),
        );
    }
    Ok(())
}

/// What is wrong with the ZIP64 EOCD record that stands at `at`, with the
/// locator at `locator_at`.
pub open spec fn eocd64_fault(eocd: Eocd64Record, at: int, locator_at: int) -> Option<Fault> {
    let cdr_end = eocd.central_dir_offset + eocd.central_dir_size;
    let end = at + 4 + Eocd64Record::SIZE;
    if eocd.record_size != 44 {
        Some(
            Fault::MalformedV1InstallBlock(
                "ZIP64 EOCD record_size "@ + text::dec_text(eocd.record_size as nat)
                    + ", expected 44"@,
            ),
        )
    } else if eocd.version_made_by != 46 || eocd.version_needed != 45 {
        Some(
            Fault::MalformedV1InstallBlock(
                "ZIP64 EOCD versions "@ + text::dec_text(eocd.version_made_by as nat) + "/"@
                    + text::dec_text(eocd.version_needed as nat) + ", expected 46/45"@,
            ),
        )
    } else if eocd.disk_number != 0 || eocd.central_dir_disk != 0 {
        Some(
            Fault::MalformedV1InstallBlock(
                "ZIP64 EOCD disk fields "@ + text::dec_text(eocd.disk_number as nat) + "/"@
                    + text::dec_text(eocd.central_dir_disk as nat) + ", expected 0/0"@,
            ),
        )
    } else if eocd.central_dir_count_disk != eocd.central_dir_count_total {
        Some(
            Fault::MalformedV1InstallBlock(
                "ZIP64 EOCD entry counts "@ + text::dec_text(eocd.central_dir_count_disk as nat)
                    + "/"@ + text::dec_text(eocd.central_dir_count_total as nat)
                    + " do not match"@,
            ),
        )
    } else if eocd.central_dir_count_total > u32::MAX {
        Some(
            Fault::MalformedV1InstallBlock(
                "ZIP64 EOCD entry count "@ + text::dec_text(eocd.central_dir_count_total as nat)
                    + " exceeds official v1 loader u32 limit"@,
            ),
        )
    } else if eocd.central_dir_offset > usize::MAX {
        Some(Fault::MalformedV1InstallBlock("ZIP64 EOCD CDR offset overflows usize"@))
    } else if eocd.central_dir_size > usize::MAX {
        Some(Fault::MalformedV1InstallBlock("ZIP64 EOCD CDR size overflows usize"@))
    } else if cdr_end > usize::MAX {
        Some(Fault::MalformedV1InstallBlock("ZIP64 EOCD CDR range overflow"@))
    } else if cdr_end != at {
        Some(
            Fault::MalformedV1InstallBlock(
                "ZIP64 EOCD CDR ends at "@ + text::dec_text(cdr_end as nat)
                    + ", expected ZIP64 EOCD offset "@ + text::dec_text(at as nat),
            ),
        )
    } else if end != locator_at {
        Some(
            Fault::MalformedV1InstallBlock(
                "ZIP64 EOCD ends at "@ + text::dec_text(end as nat) + ", expected locator offset "@
                    + text::dec_text(locator_at as nat),
            ),
        )
    } else {
        None
    }
}

/// Check the ZIP64 EOCD record.
pub fn validate_v1_zip64_eocd(eocd: &Eocd64Record, at: usize, locator_at: usize) -> (r: Result<()>)
    requires
        at + 4 + Eocd64Record::SIZE <= usize::MAX,
    ensures
        match r {
            Ok(_) => eocd64_fault(*eocd, at as int, locator_at as int) is None,
            Err(e) => eocd64_fault(*eocd, at as int, locator_at as int) == Some(e@),
        },
{
    if eocd.record_size != 44 {
        return bad_v1_directory(
            String::from_str("ZIP64 EOCD record_size ").concat(
                dec(eocd.record_size).as_str(),
            ).concat(", expected 44"),
        );
    }
    if eocd.version_made_by != 46 || eocd.version_needed != 45 {
        return bad_v1_directory(
            String::from_str("ZIP64 EOCD versions ").concat(
                dec(eocd.version_made_by as u64).as_str(),
            ).concat("/").concat(dec(eocd.version_needed as u64).as_str()).concat(
                ", expected 46/45",
            ),
        );
    }
    if eocd.disk_number != 0 || eocd.central_dir_disk != 0 {
        return bad_v1_directory(
            String::from_str("ZIP64 EOCD disk fields ").concat(
                dec(eocd.disk_number as u64).as_str(),
            ).concat("/").concat(dec(eocd.central_dir_disk as u64).as_str()).concat(
                ", expected 0/0",
            ),
        );
    }
    if eocd.central_dir_count_disk != eocd.central_dir_count_total {
        return bad_v1_directory(
            String::from_str("ZIP64 EOCD entry counts ").concat(
                dec(eocd.central_dir_count_disk).as_str(),
            ).concat("/").concat(dec(eocd.central_dir_count_total).as_str()).concat(
                " do not match",
            ),
        );
    }
    if eocd.central_dir_count_total > u32::MAX as u64 {
        return bad_v1_directory(
            String::from_str("ZIP64 EOCD entry count ").concat(
                dec(eocd.central_dir_count_total).as_str(),
            ).concat(" exceeds official v1 loader u32 limit"),
        );
    }
    if eocd.central_dir_offset > usize::MAX as u64 {
        return bad_v1_directory(String::from_str("ZIP64 EOCD CDR offset overflows usize"));
    }
    if eocd.central_dir_size > usize::MAX as u64 {
        return bad_v1_directory(String::from_str("ZIP64 EOCD CDR size overflows usize"));
    }
    let cdr_end: usize = match (eocd.central_dir_offset as usize).checked_add(
        eocd.central_dir_size as usize,
    ) {
        Some(v) => v,
        None => return bad_v1_directory(String::from_str("ZIP64 EOCD CDR range overflow")),
    };
    if cdr_end != at {
        return bad_v1_directory(
            String::from_str("ZIP64 EOCD CDR ends at ").concat(
                dec(cdr_end as u64).as_str(),
            ).concat(", expected ZIP64 EOCD offset ").concat(dec(at as u64).as_str()),
        );
    }
    let end: usize = at + 4 + Eocd64Record::SIZE;
    if end != locator_at {
        return bad_v1_directory(
            String::from_str("ZIP64 EOCD ends at ").concat(dec(end as u64).as_str()).concat(
                ", expected locator offset ",
            ).concat(dec(locator_at as u64).as_str()),
        );
    }
    Ok(())
}

/// What is wrong with the fixed part of a central directory record.
pub open spec fn cdr_header_fault(header: CentralDirectoryHeader) -> Option<Fault> {
    if header.version_made_by != 46 {
        Some(
            Fault::MalformedV1Entry(
                "central directory version_made_by "@ + text::dec_text(
                    header.version_made_by as nat,
                ) + ", expected 46"@,
            ),
        )
    } else if header.version_needed != 45 {
        Some(
            Fault::MalformedV1Entry(
                "central directory version_needed "@ + text::dec_text(header.version_needed as nat)
                    + ", expected 45"@,
            ),
        )
    } else if header.flags != 0 {
        Some(
            Fault::MalformedV1Entry(
                "central directory flags "@ + text::dec_text(header.flags as nat)
                    + ", expected 0"@,
            ),
        )
    } else if header.compressed_size != u32::MAX || header.uncompressed_size != u32::MAX {
        Some(
            Fault::MalformedV1Entry(
                "central directory size sentinels "@ + text::dword_text(header.compressed_size)
                    + "/"@ + text::dword_text(header.uncompressed_size)
                    + ", expected 0xffffffff/0xffffffff"@,
            ),
        )
    } else if header.file_name_length == 0 {
        Some(Fault::MalformedV1Entry("central directory file_name_length is zero"@))
    } else if header.extra_field_length != 0xCE {
        Some(
            Fault::MalformedV1Entry(
                "central directory extra_field_length "@ + text::word_text(
                    header.extra_field_length,
                ) + ", expected 0x00ce"@,
            ),
        )
    } else if header.file_comment_length != 0 {
        Some(
            Fault::MalformedV1Entry(
                "central directory file_comment_length "@ + text::dec_text(
                    header.file_comment_length as nat,
                ) + ", expected 0"@,
            ),
        )
    } else if header.disk_number_start != u16::MAX {
        Some(
            Fault::MalformedV1Entry(
                "central directory disk_number_start "@ + text::word_text(header.disk_number_start)
                    + ", expected 0xffff"@,
            ),
        )
    } else if header.internal_attrs != 0 || header.external_attrs != 0 {
        Some(
            Fault::MalformedV1Entry(
                "central directory attributes "@ + text::word_text(header.internal_attrs) + "/"@
                    + text::dword_text(header.external_attrs) + ", expected zero"@,
            ),
        )
    } else if header.local_header_offset != u32::MAX {
        Some(
            Fault::MalformedV1Entry(
                "central directory local_header_offset sentinel "@ + text::dword_text(
                    header.local_header_offset,
                ) + ", expected 0xffffffff"@,
            ),
        )
    } else {
        None
    }
}

/// Check the fixed part of a central directory record.
pub fn validate_v1_cdr_fixed_header(header: &CentralDirectoryHeader) -> (r: Result<()>)
    ensures
        match r {
            Ok(_) => cdr_header_fault(*header) is None,
            Err(e) => cdr_header_fault(*header) == Some(e@),
        },
{
    if header.version_made_by != 46 {
        return bad_v1_entry(
            String::from_str("central directory version_made_by ").concat(
                dec(header.version_made_by as u64).as_str(),
            ).concat(", expected 46"),
        );
    }
    if header.version_needed != 45 {
        return bad_v1_entry(
            String::from_str("central directory version_needed ").concat(
                dec(header.version_needed as u64).as_str(),
            ).concat(", expected 45"),
        );
    }
    if header.flags != 0 {
        return bad_v1_entry(
            String::from_str("central directory flags ").concat(
                dec(header.flags as u64).as_str(),
            ).concat(", expected 0"),
        );
    }
    if header.compressed_size != u32::MAX || header.uncompressed_size != u32::MAX {
        return bad_v1_entry(
            String::from_str("central directory size sentinels ").concat(
                dword(header.compressed_size).as_str(),
            ).concat("/").concat(dword(header.uncompressed_size).as_str()).concat(
                ", expected 0xffffffff/0xffffffff",
            ),
        );
    }
    if header.file_name_length == 0 {
        return bad_v1_entry(String::from_str("central directory file_name_length is zero"));
    }
    if header.extra_field_length != 0xCE {
        return bad_v1_entry(
            String::from_str("central directory extra_field_length ").concat(
                word(header.extra_field_length).as_str(),
            ).concat(", expected 0x00ce"),
        );
    }
    if header.file_comment_length != 0 {
        return bad_v1_entry(
            String::from_str("central directory file_comment_length ").concat(
                dec(header.file_comment_length as u64).as_str(),
            ).concat(", expected 0"),
        );
    }
    if header.disk_number_start != u16::MAX {
        return bad_v1_entry(
            String::from_str("central directory disk_number_start ").concat(
                word(header.disk_number_start).as_str(),
            ).concat(", expected 0xffff"),
        );
    }
    if header.internal_attrs != 0 || header.external_attrs != 0 {
        return bad_v1_entry(
            String::from_str("central directory attributes ").concat(
                word(header.internal_attrs).as_str(),
            ).concat("/").concat(dword(header.external_attrs).as_str()).concat(
                ", expected zero",
            ),
        );
    }
    if header.local_header_offset != u32::MAX {
        return bad_v1_entry(
            String::from_str("central directory local_header_offset sentinel ").concat(
                dword(header.local_header_offset).as_str(),
            ).concat(", expected 0xffffffff"),
        );
    }
    Ok(())
}

} // verus!
