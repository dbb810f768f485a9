//! Limits of the files that the router keeps.
use vstd::prelude::*;

verus! {

/// Whether a file of state may be read: one of more than eight mebibytes is not.
pub fn check_state_size(bytes: u64) -> (r: Result<(), &'static str>)
    ensures
        match r {
            Ok(_) => bytes <= 8 * 1024 * 1024,
            Err(e) => bytes > 8 * 1024 * 1024 && e@ == "状态文件超过8MiB"@,
        },
{
    if bytes > 8 * 1024 * 1024 {
        Err("状态文件超过8MiB")
    } else {
        Ok(())
    }
}

/// Whether a file of configuration may be read: one of more than a mebibyte is not.
pub fn check_config_size(bytes: u64) -> (r: Result<(), &'static str>)
    ensures
        match r {
            Ok(_) => bytes <= 1024 * 1024,
            Err(e) => bytes > 1024 * 1024 && e@ == "配置超过1MiB"@,
        },
{
    if bytes > 1024 * 1024 {
        Err("配置超过1MiB")
    } else {
        Ok(())
    }
}

} // verus!
