//! The validation contract for the configuration values the core consumes:
//! the segment size bound and the cache size against physical memory.
use vstd::prelude::*;
use crate::error::Error;

verus! {

/// A cache no larger than physical memory is accepted; anything larger is
/// rejected with the requested and the total size.
pub fn validate_cache_config(cache_size: u64, total_memory: u64) -> (r: Result<(), Error>)
    ensures
        r is Ok <==> cache_size <= total_memory,
        r is Err ==> r == Err::<(), Error>(Error::CacheConfigValidationFailure(cache_size,
            total_memory)),
{
    if cache_size > total_memory {
        return Err(Error::CacheConfigValidationFailure(cache_size, total_memory));
    }
    Ok(())
}

/// Whether the requested cache size passes three quarters of physical
/// memory, the point where a warning is due.
pub fn cache_size_warns(cache_size: u64, total_memory: u64) -> (r: bool)
    ensures
        r == (4 * cache_size > 3 * total_memory),
{
    4 * (cache_size as u128) > 3 * (total_memory as u128)
}

/// A segment size within the configured maximum is accepted.
pub fn validate_segment_config(size: u64, max_size: u32) -> (r: Result<(), Error>)
    ensures
        r is Ok <==> size <= max_size,
        r is Err ==> r == Err::<(), Error>(Error::InvalidConfiguration),
{
    if size > max_size as u64 {
        return Err(Error::InvalidConfiguration);
    }
    Ok(())
}

/// Validate the cache size against this machine's memory. Whatever the
/// machine reports, the verdict is exactly the comparison against it.
pub fn validate_cache_config_here(cache_size: u64) -> (r: Result<(), Error>)
    ensures
        r is Err ==> (exists|total: u64| r == Err::<(), Error>(
            Error::CacheConfigValidationFailure(cache_size, total)) && cache_size > total),
{
    let total_memory = system_total_memory();
    let r = validate_cache_config(cache_size, total_memory);
    proof {
        if r is Err {
            assert(r == Err::<(), Error>(Error::CacheConfigValidationFailure(cache_size,
                total_memory)) && cache_size > total_memory);
        }
    }
    r
}

/// Relies on `sysinfo::System`: total physical memory of this machine in
/// bytes. The value depends on the machine, so nothing is promised of it.
#[verifier::external_body]
fn system_total_memory() -> u64 {
    let mut sys = sysinfo::System::new_all();
    sys.refresh_memory();
    sys.total_memory()
}

} // verus!
