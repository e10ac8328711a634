[package]
name = "rust_graphql_sonic"
version = "0.1.0"
edition = "2021"
publish = false

[dependencies]
actix-web = "=3.3.3"
async-graphql = { version = "=2.11.3", features = ["apollo_tracing"] }
async-graphql-actix-web = "=2.11.3"
diesel = { version = "=1.4.8", features = ["postgres", "r2d2"] }
diesel_full_text_search = "=1.0.1"
diesel_migrations = "=1.4.0"
dotenv = "=0.15.0"
futures = "=0.3.34"
once_cell = "=1.21.4"
r2d2 = "=0.8.10"
slab = "=0.4.12"
sonic-channel = { version = "=0.4.2", features = ["ingest", "search"] }
