//! A player that is a program of its own.
use vstd::prelude::*;

use crate::actions::{decimal, push_decimal_u64};

verus! {

/// A player run as an executable: it is started with the server's address,
/// its name, its secret and then its extra arguments.
pub struct BinaryExecutableClient {
    pub relative_path: String,
    pub extra_args: Vec<String>,
}

impl BinaryExecutableClient {
    /// The arguments the program is started with.
    pub fn command_args(&self, server_address: &str, client_name: &str, secret: u64) -> (r: Vec<
        String,
    >)
        ensures
            r@.map_values(|a: String| a@) == seq![server_address@, client_name@, decimal(
                secret as nat,
            )] + self.extra_args@.map_values(|a: String| a@),
    {
        let mut args: Vec<String> = Vec::new();
        args.push(server_address.to_string());
        args.push(client_name.to_string());
        let mut number = String::new();
        push_decimal_u64(&mut number, secret);
        assert(number@ =~= decimal(secret as nat));
        args.push(number);
        let ghost head = args@.map_values(|a: String| a@);
        assert(head =~= seq![server_address@, client_name@, decimal(secret as nat)]);
        let mut i: usize = 0;
        while i < self.extra_args.len()
            invariant
                i <= self.extra_args.len(),
                args@.map_values(|a: String| a@) == head + self.extra_args@.take(
                    i as int,
                ).map_values(|a: String| a@),
            decreases self.extra_args.len() - i,
        {
            let ghost before = args@;
            let arg = self.extra_args[i].clone();
            assert(arg@ == self.extra_args@[i as int]@);
            args.push(arg);
            assert(self.extra_args@.take(i + 1).map_values(|a: String| a@) =~= self.extra_args@.take(
                i as int,
            ).map_values(|a: String| a@).push(arg@));
            assert(args@.map_values(|a: String| a@) =~= before.map_values(|a: String| a@).push(
                arg@,
            ));
            assert(args@.map_values(|a: String| a@) =~= head + self.extra_args@.take(
                i + 1,
            ).map_values(|a: String| a@));
            i = i + 1;
        }
        assert(self.extra_args@.take(self.extra_args.len() as int) =~= self.extra_args@);
        args
    }
}

} // verus!
