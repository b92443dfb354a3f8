//! The built-in network: three validators on the local host.

use vstd::prelude::*;

use crate::types::network::{first_validator, stake_sum, NetworkConfig, ValidatorInfo};

verus! {

/// Why no configuration could be made.
#[derive(Debug, PartialEq, Eq)]
pub enum ConfigError {
    /// The validator is not one of the network's validators.
    ValidatorNotFound(String),
    /// The network has no validators.
    NoValidators,
    /// The network's validators have no stake.
    ZeroStake,
}

/// Whether `v` is the validator `id` at `address` with stake 100.
pub open spec fn is_validator(v: ValidatorInfo, id: Seq<char>, address: Seq<char>) -> bool {
    v.id@ == id && v.address@ == address && v.stake == 100
}

/// The built-in validators: alice, bob and charlie on ports 8001 to 8003 of
/// 127.0.0.1, each with stake 100.
pub open spec fn is_builtin_network(vs: Seq<ValidatorInfo>) -> bool {
    &&& vs.len() == 3
    &&& is_validator(vs[0], "alice"@, "127.0.0.1:8001"@)
    &&& is_validator(vs[1], "bob"@, "127.0.0.1:8002"@)
    &&& is_validator(vs[2], "charlie"@, "127.0.0.1:8003"@)
}

/// Whether `id` names one of the built-in validators.
pub open spec fn is_builtin_validator(id: Seq<char>) -> bool {
    id == "alice"@ || id == "bob"@ || id == "charlie"@
}

/// The address of the built-in validator named `id`.
pub open spec fn builtin_address(id: Seq<char>) -> Seq<char> {
    if id == "alice"@ {
        "127.0.0.1:8001"@
    } else if id == "bob"@ {
        "127.0.0.1:8002"@
    } else {
        "127.0.0.1:8003"@
    }
}

fn validator(id: &str, address: &str) -> (v: ValidatorInfo)
    ensures
        v.id@ == id@,
        v.address@ == address@,
        v.stake == 100,
{
    ValidatorInfo { id: String::from_str(id), address: String::from_str(address), stake: 100 }
}

/// The configuration of the built-in network as the validator named
/// `validator_id` sees it: it listens on its own address.
pub fn load_config(validator_id: &str) -> (r: Result<NetworkConfig, ConfigError>)
    ensures
        r is Ok <==> is_builtin_validator(validator_id@),
        r matches Ok(c) ==> {
            &&& is_builtin_network(c.validators@)
            &&& c.local_validator_id@ == validator_id@
            &&& c.bind_address@ == builtin_address(validator_id@)
            &&& c.spec_total_stake() == 300
        },
        r matches Err(e) ==> e matches ConfigError::ValidatorNotFound(name) && name@ == validator_id@,
{
    let mut validators: Vec<ValidatorInfo> = Vec::new();
    validators.push(validator("alice", "127.0.0.1:8001"));
    validators.push(validator("bob", "127.0.0.1:8002"));
    validators.push(validator("charlie", "127.0.0.1:8003"));
    let id = String::from_str(validator_id);
    let ghost vs = validators@;
    proof {
        reveal_strlit("alice");
        reveal_strlit("bob");
        reveal_strlit("charlie");
        reveal_strlit("127.0.0.1:8001");
        reveal_strlit("127.0.0.1:8002");
        reveal_strlit("127.0.0.1:8003");
        assert(vs.drop_first().drop_first().drop_first().len() == 0);
        assert(vs.drop_first()[0] == vs[1]);
        assert(vs.drop_first().drop_first()[0] == vs[2]);
        reveal_with_fuel(first_validator, 4);
        reveal_with_fuel(stake_sum, 4);
        assert(vs.drop_last().drop_last().drop_last().len() == 0);
    }
    let config = NetworkConfig {
        validators,
        local_validator_id: id.clone(),
        bind_address: String::new(),
    };
    let bind_address = match config.get_validator(&id) {
        Some(v) => v.address.clone(),
        None => return Err(ConfigError::ValidatorNotFound(id)),
    };
    let config = NetworkConfig { bind_address, ..config };
    if config.validators.len() == 0 {
        return Err(ConfigError::NoValidators);
    }
    if config.total_stake() == 0 {
        return Err(ConfigError::ZeroStake);
    }
    Ok(config)
}

} // verus!
