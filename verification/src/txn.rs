pub mod oracle;
