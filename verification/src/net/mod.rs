pub mod packet_timer;
pub mod raw_socket;
