pub mod socket_type;
