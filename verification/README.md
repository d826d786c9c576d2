# scripted_proxy

A TCP proxy whose traffic is handed to a Lua script. The verified library
(`src/`) holds the connection record (`connection_data`), the decisions of
the socket pump (`sockets_handler`) and of the script bridge (`script`),
and the laws that relate writes and reads (`laws`). The program around it
(`app/`) does the networking with tokio, hosts the script with rlua and
reads the TOML configuration.
