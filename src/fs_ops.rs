use vstd::prelude::*;

use crate::error::FsError;
use crate::fat::FatFs;
use crate::host_ops::FileHandler;
use crate::vfs::{is_fat_id, is_fat_partition_type, PtPosition};

verus! {

/// An open file: the pool index of its node and the byte offset reached.
pub struct Request {
    pub idx: usize,
    pub offset: usize,
}

/// An engine for the partition at `pos` when `id` is a FAT partition type,
/// else none.
pub fn new<D: FileHandler>(disk: &mut D, pos: &PtPosition, id: u8) -> (r: Result<Option<FatFs>, FsError>)
    ensures
        !is_fat_id(id) ==> (r matches Ok(None)),
        is_fat_id(id) ==> !(r matches Ok(None)),
        r matches Ok(Some(fs)) ==> fs.wf(),
        final(disk).image() == old(disk).image(),
{
    if !is_fat_partition_type(id) {
        return Ok(None);
    }
    let mut fs = FatFs::new_empty();
    fs.init(disk, pos)?;
    Ok(Some(fs))
}

} // verus!
